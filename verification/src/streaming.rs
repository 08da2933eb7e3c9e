//! Streaming fragment adjuster.
//!
//! A stateful sibling of the timestamp reset engine that rebases one
//! media segment at a time without buffering a whole file. The first
//! tfdt value observed becomes the stream's base decode time; every
//! tfdt is rewritten as `value - base`, saturating at zero. Segments
//! must be presented in arrival order for one logical stream; `reset`
//! clears the captured base so the instance can serve a new stream.

use vstd::prelude::*;
use crate::bytes::{be32, be64, be32_bytes, be64_bytes};
use crate::boxes::{MOOF, TRAF, TFDT};
use crate::reset::{sat_sub, put_bytes};
use crate::Mp4Error;

verus! {

/// Rewrites one whole tfdt box (header included): byte 8 is the
/// version, the decode time sits at offset 12. The base is captured
/// from the first value seen; the stored value becomes
/// `value - base`, saturating at zero. A box too short to carry the
/// field passes through unchanged.
pub open spec fn spec_adjust_tfdt(td: Seq<u8>, base: Option<u64>) -> (Seq<u8>, Option<u64>) {
    if td.len() < 16 {
        (td, base)
    } else if td[8] == 1 {
        if td.len() < 20 {
            (td, base)
        } else {
            let value = be64(td, 12);
            let b = match base {
                None => value,
                Some(v) => v as int,
            };
            (put_bytes(td, 12, be64_bytes(sat_sub(value, b))), Some(b as u64))
        }
    } else {
        let value = be32(td, 12);
        let b = match base {
            None => value,
            Some(v) => v as int,
        };
        (put_bytes(td, 12, be32_bytes(sat_sub(value, b))), Some(b as u64))
    }
}

/// Walks the child boxes of a container from `off`, rewriting each
/// tfdt (inside a traf) and threading the captured base; scanning
/// stops at a truncated child, and a child size below 8 is malformed.
/// `depth` selects what a child of interest is: at depth 0 a moof, at
/// depth 1 a traf, at depth 2 a tfdt.
pub open spec fn spec_adjust_walk(s: Seq<u8>, off: int, base: Option<u64>, depth: int) -> Result<
    (Seq<u8>, Option<u64>),
    Mp4Error,
>
    decreases s.len() - off, 2 - depth,
{
    if off < 0 || off >= s.len() || s.len() - off < 8 {
        Ok((Seq::empty(), base))
    } else {
        let size = be32(s, off);
        if size < 8 {
            Err(Mp4Error::MalformedBox)
        } else if off + size > s.len() {
            Ok((Seq::empty(), base))
        } else {
            let boxdata = s.subrange(off, off + size);
            let step: Result<(Seq<u8>, Option<u64>), Mp4Error> = if depth == 0 && be32(s, off + 4)
                == MOOF {
                spec_adjust_box(boxdata, base, 1)
            } else if depth == 1 && be32(s, off + 4) == TRAF {
                spec_adjust_box(boxdata, base, 2)
            } else if depth == 2 && be32(s, off + 4) == TFDT {
                Ok(spec_adjust_tfdt(boxdata, base))
            } else {
                Ok((boxdata, base))
            };
            match step {
                Err(e) => Err(e),
                Ok((chunk, base1)) => match spec_adjust_walk(s, off + size, base1, depth) {
                    Err(e) => Err(e),
                    Ok((rest, base2)) => Ok((chunk + rest, base2)),
                },
            }
        }
    }
}

/// Rewrites one whole container box (header included): the 8 header
/// bytes are copied, then its children are walked.
pub open spec fn spec_adjust_box(bd: Seq<u8>, base: Option<u64>, depth: int) -> Result<
    (Seq<u8>, Option<u64>),
    Mp4Error,
>
    decreases bd.len(), 2 - depth,
{
    if bd.len() < 8 {
        Ok((bd, base))
    } else {
        match spec_adjust_walk(bd, 8, base, depth) {
            Err(e) => Err(e),
            Ok((body, base1)) => Ok((bd.subrange(0, 8) + body, base1)),
        }
    }
}

/// One whole media segment: its top-level boxes are walked and every
/// moof has its tfdt decode times rebased.
pub open spec fn spec_process_segment(s: Seq<u8>, base: Option<u64>) -> Result<
    (Seq<u8>, Option<u64>),
    Mp4Error,
> {
    spec_adjust_walk(s, 0, base, 0)
}

/// Streaming processor for fragmented MP4: holds the init segment and
/// the base decode time captured from the first tfdt observed.
#[derive(Debug)]
pub struct FragmentedMP4Processor {
    pub init_segment: Vec<u8>,
    pub base_decode_time: Option<u64>,
}

impl FragmentedMP4Processor {
    /// A processor with no init segment and no captured base.
    pub fn new() -> (r: Self)
        ensures
            r.init_segment@ == Seq::<u8>::empty(),
            r.base_decode_time is None,
    {
        FragmentedMP4Processor { init_segment: Vec::new(), base_decode_time: None }
    }

    /// Stores the stream's initialisation segment.
    pub fn set_init_segment(&mut self, data: &[u8]) -> (r: Result<(), Mp4Error>)
        ensures
            r == Ok::<(), Mp4Error>(()),
            final(self).init_segment@ == data@,
            final(self).base_decode_time == old(self).base_decode_time,
    {
        self.init_segment = vstd::slice::slice_to_vec(data);
        Ok(())
    }

    /// Rebases one media segment, capturing the base decode time from
    /// the first tfdt if none is held yet, exactly as
    /// [`spec_process_segment`] describes.
    pub fn process_segment(&mut self, data: &[u8]) -> (r: Result<Vec<u8>, Mp4Error>)
        ensures
            final(self).init_segment@ == old(self).init_segment@,
            match r {
                Ok(out) => spec_process_segment(data@, old(self).base_decode_time) == Ok::<
                    (Seq<u8>, Option<u64>),
                    Mp4Error,
                >((out@, final(self).base_decode_time)),
                Err(e) => spec_process_segment(data@, old(self).base_decode_time) == Err::<
                    (Seq<u8>, Option<u64>),
                    Mp4Error,
                >(e),
            },
    {
        let mut result: Vec<u8> = Vec::new();
        let r = self.adjust_walk(data, 0, &mut result, 0);
        match r {
            Ok(()) => {
                proof {
                    assert(result@.skip(0) =~= result@);
                }
                Ok(result)
            },
            Err(e) => Err(e),
        }
    }

    /// Walks sibling boxes from `off`, appending (possibly rewritten)
    /// box bytes to `out`.
    fn adjust_walk(&mut self, data: &[u8], off: usize, out: &mut Vec<u8>, depth: u8) -> (r: Result<
        (),
        Mp4Error,
    >)
        requires
            depth <= 2,
        ensures
            final(self).init_segment@ == old(self).init_segment@,
            match r {
                Ok(()) => spec_adjust_walk(
                    data@,
                    off as int,
                    old(self).base_decode_time,
                    depth as int,
                ) == Ok::<(Seq<u8>, Option<u64>), Mp4Error>(
                    (final(out)@.skip(old(out)@.len() as int), final(self).base_decode_time),
                ) && final(out)@.len() >= old(out)@.len() && final(out)@.subrange(
                    0,
                    old(out)@.len() as int,
                ) == old(out)@,
                Err(e) => spec_adjust_walk(
                    data@,
                    off as int,
                    old(self).base_decode_time,
                    depth as int,
                ) == Err::<(Seq<u8>, Option<u64>), Mp4Error>(e),
            },
        decreases data@.len() - off, 2 - depth,
    {
        let n = data.len();
        if off >= n || n - off < 8 {
            proof {
                assert(out@.skip(out@.len() as int) =~= Seq::<u8>::empty());
                assert(out@.subrange(0, out@.len() as int) =~= out@);
            }
            return Ok(());
        }
        let size32 = crate::bytes::read_be_u32(data, off);
        if size32 < 8 {
            return Err(Mp4Error::MalformedBox);
        }
        let size = size32 as usize;
        if size > n - off {
            proof {
                assert(out@.skip(out@.len() as int) =~= Seq::<u8>::empty());
                assert(out@.subrange(0, out@.len() as int) =~= out@);
            }
            return Ok(());
        }
        let t32 = crate::bytes::read_be_u32(data, off + 4);
        let boxdata = vstd::slice::slice_subrange(data, off, off + size);
        let ghost out0 = out@;

        if depth == 0 && t32 == MOOF {
            match self.adjust_box(boxdata, out, 1) {
                Ok(()) => {},
                Err(e) => {
                    return Err(e);
                },
            }
        } else if depth == 1 && t32 == TRAF {
            match self.adjust_box(boxdata, out, 2) {
                Ok(()) => {},
                Err(e) => {
                    return Err(e);
                },
            }
        } else if depth == 2 && t32 == TFDT {
            self.adjust_tfdt(boxdata, out);
        } else {
            crate::bytes::push_bytes(out, boxdata);
            proof {
                assert(out@.subrange(0, out0.len() as int) =~= out0);
                assert(out@.skip(out0.len() as int) =~= boxdata@);
            }
        }
        let ghost mid = out@;
        let ghost base1 = self.base_decode_time;
        let ghost chunk = mid.skip(out0.len() as int);
        proof {
            assert(mid.subrange(0, out0.len() as int) == out0);
            assert(mid.len() >= out0.len());
        }

        let r = self.adjust_walk(data, off + size, out, depth);
        proof {
            match r {
                Ok(()) => {
                    assert(out@.subrange(0, mid.len() as int) == mid);
                    assert forall|j: int| 0 <= j < out0.len() implies out@[j] == out0[j] by {
                        assert(out@[j] == out@.subrange(0, mid.len() as int)[j]);
                        assert(mid[j] == mid.subrange(0, out0.len() as int)[j]);
                    }
                    assert(out@.subrange(0, out0.len() as int) =~= out0);
                    let rest = out@.skip(mid.len() as int);
                    assert forall|j: int| 0 <= j < out@.len() - out0.len() implies out@.skip(
                        out0.len() as int,
                    )[j] == (chunk + rest)[j] by {
                        if j < chunk.len() {
                            assert(out@[out0.len() + j] == out@.subrange(
                                0,
                                mid.len() as int,
                            )[out0.len() + j]);
                            assert(chunk[j] == mid[out0.len() + j]);
                        } else {
                            assert(out@.skip(out0.len() as int)[j] == out@[out0.len() + j]);
                            assert(rest[j - chunk.len()] == out@[mid.len() + (j - chunk.len())]);
                        }
                    }
                    assert(out@.skip(out0.len() as int) =~= chunk + rest);
                    assert(spec_adjust_walk(
                        data@,
                        off as int,
                        old(self).base_decode_time,
                        depth as int,
                    ) == Ok::<(Seq<u8>, Option<u64>), Mp4Error>(
                        (out@.skip(out0.len() as int), self.base_decode_time),
                    ));
                },
                Err(_) => {},
            }
        }
        r
    }

    /// Rewrites one whole container box: the 8 header bytes are
    /// copied, then its children are walked.
    fn adjust_box(&mut self, bd: &[u8], out: &mut Vec<u8>, depth: u8) -> (r: Result<(), Mp4Error>)
        requires
            1 <= depth <= 2,
        ensures
            final(self).init_segment@ == old(self).init_segment@,
            match r {
                Ok(()) => spec_adjust_box(bd@, old(self).base_decode_time, depth as int) == Ok::<
                    (Seq<u8>, Option<u64>),
                    Mp4Error,
                >(
                    (final(out)@.skip(old(out)@.len() as int), final(self).base_decode_time),
                ) && final(out)@.len() >= old(out)@.len() && final(out)@.subrange(
                    0,
                    old(out)@.len() as int,
                ) == old(out)@,
                Err(e) => spec_adjust_box(bd@, old(self).base_decode_time, depth as int) == Err::<
                    (Seq<u8>, Option<u64>),
                    Mp4Error,
                >(e),
            },
        decreases bd@.len(), 2 - depth,
    {
        let ghost out0 = out@;
        if bd.len() < 8 {
            crate::bytes::push_bytes(out, bd);
            proof {
                assert(out@.skip(out0.len() as int) =~= bd@);
                assert(out@.subrange(0, out0.len() as int) =~= out0);
            }
            return Ok(());
        }
        let header = vstd::slice::slice_subrange(bd, 0, 8);
        crate::bytes::push_bytes(out, header);
        let ghost mid = out@;
        let r = self.adjust_walk(bd, 8, out, depth);
        proof {
            match r {
                Ok(()) => {
                    assert(mid == out0 + bd@.subrange(0, 8));
                    assert(out@.subrange(0, mid.len() as int) == mid);
                    assert forall|j: int| 0 <= j < out0.len() implies out@[j] == out0[j] by {
                        assert(out@[j] == out@.subrange(0, mid.len() as int)[j]);
                        assert(mid[j] == (out0 + bd@.subrange(0, 8))[j]);
                    }
                    assert(out@.subrange(0, out0.len() as int) =~= out0);
                    let rest = out@.skip(mid.len() as int);
                    assert forall|j: int| 0 <= j < out@.len() - out0.len() implies out@.skip(
                        out0.len() as int,
                    )[j] == (bd@.subrange(0, 8) + rest)[j] by {
                        if j < 8 {
                            assert(out@[out0.len() + j] == out@.subrange(
                                0,
                                mid.len() as int,
                            )[out0.len() + j]);
                            assert(mid[out0.len() + j] == (out0 + bd@.subrange(0, 8))[out0.len()
                                + j]);
                        } else {
                            assert(out@.skip(out0.len() as int)[j] == out@[out0.len() + j]);
                            assert(rest[j - 8] == out@[mid.len() + (j - 8)]);
                        }
                    }
                    assert(out@.skip(out0.len() as int) =~= bd@.subrange(0, 8) + rest);
                },
                Err(_) => {},
            }
        }
        r
    }

    /// Rewrites one whole tfdt box, capturing the base from the first
    /// decode time seen.
    fn adjust_tfdt(&mut self, td: &[u8], out: &mut Vec<u8>)
        ensures
            final(self).init_segment@ == old(self).init_segment@,
            spec_adjust_tfdt(td@, old(self).base_decode_time) == (
                final(out)@.skip(old(out)@.len() as int),
                final(self).base_decode_time,
            ),
            final(out)@.len() >= old(out)@.len(),
            final(out)@.subrange(0, old(out)@.len() as int) == old(out)@,
    {
        let ghost out0 = out@;
        if td.len() < 16 {
            crate::bytes::push_bytes(out, td);
            proof {
                assert(out@.skip(out0.len() as int) =~= td@);
                assert(out@.subrange(0, out0.len() as int) =~= out0);
            }
            return;
        }
        let version = td[8];
        if version == 1 {
            if td.len() < 20 {
                crate::bytes::push_bytes(out, td);
                proof {
                    assert(out@.skip(out0.len() as int) =~= td@);
                    assert(out@.subrange(0, out0.len() as int) =~= out0);
                }
                return;
            }
            let decode_time = crate::bytes::read_be_u64(td, 12);
            let base = match self.base_decode_time {
                None => {
                    self.base_decode_time = Some(decode_time);
                    decode_time
                },
                Some(v) => v,
            };
            let adjusted = if decode_time >= base {
                decode_time - base
            } else {
                0
            };
            let mut rewritten = vstd::slice::slice_to_vec(td);
            crate::bytes::store_be_u64(&mut rewritten, 12, adjusted);
            crate::bytes::push_bytes(out, rewritten.as_slice());
            proof {
                assert(rewritten@ =~= put_bytes(td@, 12, be64_bytes(adjusted as int)));
                assert(out@.skip(out0.len() as int) =~= rewritten@);
                assert(out@.subrange(0, out0.len() as int) =~= out0);
            }
        } else {
            let decode_time = crate::bytes::read_be_u32(td, 12) as u64;
            let base = match self.base_decode_time {
                None => {
                    self.base_decode_time = Some(decode_time);
                    decode_time
                },
                Some(v) => v,
            };
            let adjusted = if decode_time >= base {
                decode_time - base
            } else {
                0
            };
            proof {
                assert(be32(td@, 12) < 0x100000000);
            }
            let mut rewritten = vstd::slice::slice_to_vec(td);
            crate::bytes::store_be_u32(&mut rewritten, 12, adjusted as u32);
            crate::bytes::push_bytes(out, rewritten.as_slice());
            proof {
                assert(rewritten@ =~= put_bytes(td@, 12, be32_bytes(adjusted as int)));
                assert(out@.skip(out0.len() as int) =~= rewritten@);
                assert(out@.subrange(0, out0.len() as int) =~= out0);
            }
        }
    }

    /// The base decode time captured so far.
    pub fn get_base_decode_time(&self) -> (r: Option<u64>)
        ensures
            r == self.base_decode_time,
    {
        self.base_decode_time
    }

    /// Clears the captured base so the instance can serve a new
    /// logical stream.
    pub fn reset(&mut self)
        ensures
            final(self).init_segment@ == old(self).init_segment@,
            final(self).base_decode_time is None,
    {
        self.base_decode_time = None;
    }
}

impl Default for FragmentedMP4Processor {
    /// A processor with no init segment and no captured base.
    fn default() -> (r: Self)
        ensures
            r.init_segment@ == Seq::<u8>::empty(),
            r.base_decode_time is None,
    {
        FragmentedMP4Processor::new()
    }
}

/// A captured base is sticky through one tfdt rewrite: with a base
/// already held, the rewrite keeps it and rebases the stored value by
/// exactly that base.
proof fn lemma_adjust_tfdt_base_sticky(td: Seq<u8>, base: u64)
    ensures
        spec_adjust_tfdt(td, Some(base)).1 == Some(base),
{
}

/// A captured base is sticky through a sibling walk: every tfdt that
/// the walk rewrites is rebased by that same base, and the walk hands
/// the base back unchanged.
proof fn lemma_adjust_walk_base_sticky(s: Seq<u8>, off: int, base: u64, depth: int)
    ensures
        spec_adjust_walk(s, off, Some(base), depth) matches Ok((o, b2)) ==> b2 == Some(base),
    decreases s.len() - off, 2 - depth,
{
    if off < 0 || off >= s.len() || s.len() - off < 8 {
    } else {
        let size = be32(s, off);
        if size < 8 {
        } else if off + size > s.len() {
        } else {
            let boxdata = s.subrange(off, off + size);
            if depth == 0 && be32(s, off + 4) == MOOF {
                lemma_adjust_box_base_sticky(boxdata, base, 1);
            } else if depth == 1 && be32(s, off + 4) == TRAF {
                lemma_adjust_box_base_sticky(boxdata, base, 2);
            } else if depth == 2 && be32(s, off + 4) == TFDT {
                lemma_adjust_tfdt_base_sticky(boxdata, base);
            }
            lemma_adjust_walk_base_sticky(s, off + size, base, depth);
        }
    }
}

/// A captured base is sticky through one container rewrite.
proof fn lemma_adjust_box_base_sticky(bd: Seq<u8>, base: u64, depth: int)
    ensures
        spec_adjust_box(bd, Some(base), depth) matches Ok((o, b2)) ==> b2 == Some(base),
    decreases bd.len(), 2 - depth,
{
    if bd.len() < 8 {
    } else {
        lemma_adjust_walk_base_sticky(bd, 8, base, depth);
    }
}

/// Across successive segments of one logical stream, the base decode
/// time never changes once it has been captured: every segment after
/// the first is rebased by the same base. With
/// [`lemma_rebased_tfdt_monotone`] this is why tfdt values that arrive
/// in non-decreasing order across calls leave rebased, starting at
/// zero, and still in non-decreasing order.
pub proof fn lemma_process_segment_base_sticky(s: Seq<u8>, base: u64)
    ensures
        spec_process_segment(s, Some(base)) matches Ok((o, b2)) ==> b2 == Some(base),
{
    lemma_adjust_walk_base_sticky(s, 0, base, 0);
}

/// Rebasing by a common base preserves the order of decode times:
/// when a track's tfdt values arrive in non-decreasing order, the
/// rebased values are non-decreasing too, on the streaming path and on
/// the whole-file reset path alike.
pub proof fn lemma_rebased_tfdt_monotone(vs: Seq<int>, base: int)
    requires
        forall|i: int, j: int| 0 <= i <= j < vs.len() ==> #[trigger] vs[i] <= #[trigger] vs[j],
    ensures
        forall|i: int, j: int| 0 <= i <= j < vs.len() ==> sat_sub(#[trigger] vs[i], base)
            <= sat_sub(#[trigger] vs[j], base),
{
}

} // verus!
