//! Timestamp reset engine.
//!
//! Two paths, selected by the presence of a moof box. For a fragmented
//! file, the first tfdt value of each track becomes that track's rebase
//! offset: every tfdt is rewritten relative to it (saturating at zero),
//! and moov durations are recomputed from the fragments. For a flat
//! file, creation/modification times are zeroed and any edit list
//! (edts) is dropped, since playback is defined to start at zero.

use vstd::prelude::*;
use crate::bytes::{be32, be32_bytes, be64_bytes};
use crate::boxes::{
    BoxInfo, Mp4Box, SpecBox, SpecBoxInfo, MOOV, MOOF, TRAK, TRAF, TFHD, TFDT, TRUN, MVHD, TKHD,
    MDHD, MDIA, EDTS,
};
use crate::codecs::spec_tfdt_value;
use crate::Mp4Error;

verus! {

/// `a - b`, saturating at zero.
pub open spec fn sat_sub(a: int, b: int) -> int {
    if a >= b {
        a - b
    } else {
        0
    }
}

/// `a + b`, saturating at the largest 64-bit value.
pub open spec fn sat_add64(a: int, b: int) -> int {
    if a + b <= 0xffffffffffffffff {
        a + b
    } else {
        0xffffffffffffffff
    }
}

/// `v` clamped to the largest 32-bit value.
pub open spec fn clamp32(v: int) -> int {
    if v > 0xffffffff {
        0xffffffff
    } else {
        v
    }
}

/// Saturating subtraction is monotone: rebasing two decode times by
/// the same offset preserves their order. This is why rebased tfdt
/// values stay non-decreasing whenever the incoming ones are.
pub proof fn lemma_sat_sub_monotone(a: int, b: int, base: int)
    requires
        a <= b,
    ensures
        sat_sub(a, base) <= sat_sub(b, base),
{
}

/// Appends the raw byte span of one parsed child box, exactly as it
/// stands in the parent payload: untouched boxes keep their original
/// bytes, extended or to-end size headers included.
fn push_child_span(output: &mut Vec<u8>, parent: &[u8], b: &Mp4Box)
    requires
        0 <= b@.offset,
        b@.offset + b@.size <= parent@.len(),
    ensures
        final(output)@ == old(output)@ + parent@.subrange(b@.offset, b@.offset + b@.size),
{
    let n = parent.len();
    let a = b.offset;
    let sz = b.size as usize;
    proof {
        assert(b@.size <= n as int);
        assert(sz as int == b@.size);
    }
    let piece = vstd::slice::slice_subrange(parent, a, a + sz);
    crate::bytes::push_bytes(output, piece);
}

/// The payload with the byte range `[a, b)` zeroed.
pub open spec fn zero_range(p: Seq<u8>, a: int, b: int) -> Seq<u8> {
    Seq::new(p.len(), |i: int| if a <= i < b { 0u8 } else { p[i] })
}

/// The payload with `bytes` written at offset `at`.
pub open spec fn put_bytes(p: Seq<u8>, at: int, bytes: Seq<u8>) -> Seq<u8> {
    Seq::new(p.len(), |i: int| if at <= i < at + bytes.len() { bytes[i - at] } else { p[i] })
}

/// An mvhd/tkhd/mdhd payload with creation and modification times
/// zeroed: bytes 4..20 for version 1 (two 64-bit fields), bytes 4..12
/// for version 0 (two 32-bit fields).
pub open spec fn spec_zero_times(p: Seq<u8>) -> Result<Seq<u8>, Mp4Error> {
    if p.len() < 4 {
        Err(Mp4Error::TruncatedData)
    } else if p[0] == 1 {
        if p.len() < 20 {
            Err(Mp4Error::TruncatedData)
        } else {
            Ok(zero_range(p, 4, 20))
        }
    } else {
        if p.len() < 12 {
            Err(Mp4Error::TruncatedData)
        } else {
            Ok(zero_range(p, 4, 12))
        }
    }
}

/// Zeroes the creation and modification times of an mvhd payload.
fn reset_mvhd(data: &[u8]) -> (r: Result<Vec<u8>, Mp4Error>)
    ensures
        match r {
            Ok(out) => spec_zero_times(data@) == Ok::<Seq<u8>, Mp4Error>(out@),
            Err(e) => spec_zero_times(data@) == Err::<Seq<u8>, Mp4Error>(e),
        },
{
    zero_times(data)
}

/// Zeroes the creation and modification times of a tkhd payload.
fn reset_tkhd(data: &[u8]) -> (r: Result<Vec<u8>, Mp4Error>)
    ensures
        match r {
            Ok(out) => spec_zero_times(data@) == Ok::<Seq<u8>, Mp4Error>(out@),
            Err(e) => spec_zero_times(data@) == Err::<Seq<u8>, Mp4Error>(e),
        },
{
    zero_times(data)
}

/// Zeroes the creation and modification times of an mdhd payload.
fn reset_mdhd(data: &[u8]) -> (r: Result<Vec<u8>, Mp4Error>)
    ensures
        match r {
            Ok(out) => spec_zero_times(data@) == Ok::<Seq<u8>, Mp4Error>(out@),
            Err(e) => spec_zero_times(data@) == Err::<Seq<u8>, Mp4Error>(e),
        },
{
    zero_times(data)
}

fn zero_times(data: &[u8]) -> (r: Result<Vec<u8>, Mp4Error>)
    ensures
        match r {
            Ok(out) => spec_zero_times(data@) == Ok::<Seq<u8>, Mp4Error>(out@),
            Err(e) => spec_zero_times(data@) == Err::<Seq<u8>, Mp4Error>(e),
        },
{
    if data.len() < 4 {
        return Err(Mp4Error::TruncatedData);
    }
    let mut out = vstd::slice::slice_to_vec(data);
    if data[0] == 1 {
        if data.len() < 20 {
            return Err(Mp4Error::TruncatedData);
        }
        crate::bytes::store_be_u64(&mut out, 4, 0);
        crate::bytes::store_be_u64(&mut out, 12, 0);
        proof {
            assert(out@ =~= zero_range(data@, 4, 20));
        }
    } else {
        if data.len() < 12 {
            return Err(Mp4Error::TruncatedData);
        }
        crate::bytes::store_be_u32(&mut out, 4, 0);
        crate::bytes::store_be_u32(&mut out, 8, 0);
        proof {
            assert(out@ =~= zero_range(data@, 4, 12));
        }
    }
    Ok(out)
}

/// An mvhd payload with times zeroed and the duration replaced: the
/// 64-bit duration at offset 24 for version 1, the 32-bit duration
/// (clamped) at offset 16 for version 0.
pub open spec fn spec_reset_mvhd_dur(p: Seq<u8>, dur: int) -> Result<Seq<u8>, Mp4Error> {
    if p.len() < 4 {
        Err(Mp4Error::TruncatedData)
    } else if p[0] == 1 {
        if p.len() < 32 {
            Err(Mp4Error::TruncatedData)
        } else {
            Ok(put_bytes(zero_range(p, 4, 20), 24, be64_bytes(dur)))
        }
    } else {
        if p.len() < 20 {
            Err(Mp4Error::TruncatedData)
        } else {
            Ok(put_bytes(zero_range(p, 4, 12), 16, be32_bytes(clamp32(dur))))
        }
    }
}

fn reset_mvhd_with_duration(data: &[u8], duration: u64) -> (r: Result<Vec<u8>, Mp4Error>)
    ensures
        match r {
            Ok(out) => spec_reset_mvhd_dur(data@, duration as int) == Ok::<Seq<u8>, Mp4Error>(
                out@,
            ),
            Err(e) => spec_reset_mvhd_dur(data@, duration as int) == Err::<Seq<u8>, Mp4Error>(e),
        },
{
    if data.len() < 4 {
        return Err(Mp4Error::TruncatedData);
    }
    let mut out = vstd::slice::slice_to_vec(data);
    if data[0] == 1 {
        if data.len() < 32 {
            return Err(Mp4Error::TruncatedData);
        }
        crate::bytes::store_be_u64(&mut out, 4, 0);
        crate::bytes::store_be_u64(&mut out, 12, 0);
        crate::bytes::store_be_u64(&mut out, 24, duration);
        proof {
            assert(out@ =~= put_bytes(
                zero_range(data@, 4, 20),
                24,
                be64_bytes(duration as int),
            ));
        }
    } else {
        if data.len() < 20 {
            return Err(Mp4Error::TruncatedData);
        }
        let duration_32: u32 = if duration > 0xffffffff {
            0xffffffffu32
        } else {
            duration as u32
        };
        crate::bytes::store_be_u32(&mut out, 4, 0);
        crate::bytes::store_be_u32(&mut out, 8, 0);
        crate::bytes::store_be_u32(&mut out, 16, duration_32);
        proof {
            assert(out@ =~= put_bytes(
                zero_range(data@, 4, 12),
                16,
                be32_bytes(clamp32(duration as int)),
            ));
        }
    }
    Ok(out)
}

/// A tkhd payload with times zeroed and the duration replaced,
/// rewritten at the offsets this engine has always used: offset 24 for
/// version 1, offset 16 for version 0 (clamped to 32 bits).
pub open spec fn spec_reset_tkhd_dur(p: Seq<u8>, dur: int) -> Result<Seq<u8>, Mp4Error> {
    if p.len() < 4 {
        Err(Mp4Error::TruncatedData)
    } else if p[0] == 1 {
        if p.len() < 32 {
            Err(Mp4Error::TruncatedData)
        } else {
            Ok(put_bytes(zero_range(p, 4, 20), 24, be64_bytes(dur)))
        }
    } else {
        if p.len() < 20 {
            Err(Mp4Error::TruncatedData)
        } else {
            Ok(put_bytes(zero_range(p, 4, 12), 16, be32_bytes(clamp32(dur))))
        }
    }
}

fn reset_tkhd_with_duration(data: &[u8], duration: u64) -> (r: Result<Vec<u8>, Mp4Error>)
    ensures
        match r {
            Ok(out) => spec_reset_tkhd_dur(data@, duration as int) == Ok::<Seq<u8>, Mp4Error>(
                out@,
            ),
            Err(e) => spec_reset_tkhd_dur(data@, duration as int) == Err::<Seq<u8>, Mp4Error>(e),
        },
{
    if data.len() < 4 {
        return Err(Mp4Error::TruncatedData);
    }
    let mut out = vstd::slice::slice_to_vec(data);
    if data[0] == 1 {
        if data.len() < 32 {
            return Err(Mp4Error::TruncatedData);
        }
        crate::bytes::store_be_u64(&mut out, 4, 0);
        crate::bytes::store_be_u64(&mut out, 12, 0);
        crate::bytes::store_be_u64(&mut out, 24, duration);
        proof {
            assert(out@ =~= put_bytes(
                zero_range(data@, 4, 20),
                24,
                be64_bytes(duration as int),
            ));
        }
    } else {
        if data.len() < 20 {
            return Err(Mp4Error::TruncatedData);
        }
        let duration_32: u32 = if duration > 0xffffffff {
            0xffffffffu32
        } else {
            duration as u32
        };
        crate::bytes::store_be_u32(&mut out, 4, 0);
        crate::bytes::store_be_u32(&mut out, 8, 0);
        crate::bytes::store_be_u32(&mut out, 16, duration_32);
        proof {
            assert(out@ =~= put_bytes(
                zero_range(data@, 4, 12),
                16,
                be32_bytes(clamp32(duration as int)),
            ));
        }
    }
    Ok(out)
}

/// An mdhd payload with times zeroed and the duration replaced:
/// offset 24 for version 1, offset 16 for version 0 (clamped).
pub open spec fn spec_reset_mdhd_dur(p: Seq<u8>, dur: int) -> Result<Seq<u8>, Mp4Error> {
    spec_reset_mvhd_dur(p, dur)
}

fn reset_mdhd_with_duration(data: &[u8], duration: u64) -> (r: Result<Vec<u8>, Mp4Error>)
    ensures
        match r {
            Ok(out) => spec_reset_mdhd_dur(data@, duration as int) == Ok::<Seq<u8>, Mp4Error>(
                out@,
            ),
            Err(e) => spec_reset_mdhd_dur(data@, duration as int) == Err::<Seq<u8>, Mp4Error>(e),
        },
{
    reset_mvhd_with_duration(data, duration)
}

/// A tfdt payload whose decode time has been rebased: the stored value
/// becomes `value - offset`, saturating at zero, written back at the
/// width the version byte selects. A payload too short for the field
/// its version byte declares is an error: no partial rewrite is
/// produced.
pub open spec fn spec_reset_tfdt(p: Seq<u8>, off: int) -> Result<Seq<u8>, Mp4Error> {
    if p.len() < 4 {
        Err(Mp4Error::TruncatedData)
    } else {
        let nv = sat_sub(spec_tfdt_value(p), off);
        if p[0] == 1 && p.len() >= 12 {
            Ok(put_bytes(p, 4, be64_bytes(nv)))
        } else if p[0] != 1 && p.len() >= 8 {
            Ok(put_bytes(p, 4, be32_bytes(nv)))
        } else {
            Err(Mp4Error::TruncatedData)
        }
    }
}

/// Rewrites a tfdt payload relative to the track's rebase offset.
fn reset_tfdt_relative(data: &[u8], offset: u64) -> (r: Result<Vec<u8>, Mp4Error>)
    ensures
        match r {
            Ok(out) => spec_reset_tfdt(data@, offset as int) == Ok::<Seq<u8>, Mp4Error>(out@),
            Err(e) => spec_reset_tfdt(data@, offset as int) == Err::<Seq<u8>, Mp4Error>(e),
        },
{
    if data.len() < 4 {
        return Err(Mp4Error::TruncatedData);
    }
    let current = crate::codecs::read_tfdt_value(data);
    let new_value = if current >= offset {
        current - offset
    } else {
        0
    };
    let mut out = vstd::slice::slice_to_vec(data);
    if data[0] == 1 && data.len() >= 12 {
        crate::bytes::store_be_u64(&mut out, 4, new_value);
        proof {
            assert(out@ =~= put_bytes(data@, 4, be64_bytes(new_value as int)));
        }
    } else if data[0] != 1 && data.len() >= 8 {
        proof {
            assert(spec_tfdt_value(data@) < 0x100000000);
        }
        crate::bytes::store_be_u32(&mut out, 4, new_value as u32);
        proof {
            assert(out@ =~= put_bytes(data@, 4, be32_bytes(new_value as int)));
        }
    } else {
        return Err(Mp4Error::TruncatedData);
    }
    Ok(out)
}

/// The per-child rewrite of an mdia box on the fragmented path: mdhd
/// gets zeroed times and the computed duration; everything else is
/// copied verbatim, as the byte span it occupies in the parent
/// payload `p`.
pub open spec fn mdia_child_dur_fn(p: Seq<u8>, dur: int) -> spec_fn(SpecBox) -> Result<
    Seq<crate::boxes::RawBox>,
    Mp4Error,
> {
    |c: SpecBox| if c.typ == MDHD as int {
        match spec_reset_mdhd_dur(c.payload, dur) {
            Err(e) => Err(e),
            Ok(np) => Ok(seq![crate::boxes::RawBox::Boxed { typ: c.typ, payload: np }]),
        }
    } else {
        Ok(seq![crate::boxes::RawBox::Span { bytes: p.subrange(c.offset, c.offset + c.size) }])
    }
}

/// An mdia payload rewritten on the fragmented path.
#[verifier::opaque]
pub open spec fn spec_reset_mdia_dur(p: Seq<u8>, dur: int) -> Result<Seq<u8>, Mp4Error> {
    match crate::boxes::spec_parse_boxes(p, 0) {
        Err(e) => Err(e),
        Ok(cs) => match crate::boxes::fold_children(cs, mdia_child_dur_fn(p, dur)) {
            Err(e) => Err(e),
            Ok(raws) => Ok(crate::boxes::serialize_raws(raws)),
        },
    }
}

#[verifier::rlimit(100)]
fn reset_mdia_timestamps_with_duration(mdia_data: &[u8], duration: u64) -> (r: Result<
    Vec<u8>,
    Mp4Error,
>)
    ensures
        match r {
            Ok(out) => spec_reset_mdia_dur(mdia_data@, duration as int) == Ok::<Seq<u8>, Mp4Error>(
                out@,
            ),
            Err(e) => spec_reset_mdia_dur(mdia_data@, duration as int) == Err::<Seq<u8>, Mp4Error>(
                e,
            ),
        },
{
    proof {
        reveal(spec_reset_mdia_dur);
    }
    let boxes = match crate::boxes::parse_container_box(mdia_data) {
        Ok(bs) => bs,
        Err(e) => {
            return Err(e);
        },
    };
    let ghost cs = crate::boxes::box_views(boxes@);
    let ghost f = mdia_child_dur_fn(mdia_data@, duration as int);
    let mut output: Vec<u8> = Vec::new();
    let ghost mut racc: Seq<crate::boxes::RawBox> = Seq::empty();
    let mut i: usize = 0;
    proof {
        assert(cs.skip(0) =~= cs);
        crate::boxes::lemma_parse_boxes_wf(mdia_data@, 0);
        match crate::boxes::fold_children(cs, f) {
            Ok(rest) => {
                assert(racc + rest =~= rest);
            },
            Err(_) => {},
        }
        assert(crate::boxes::serialize_raws(racc) =~= Seq::<u8>::empty());
    }
    while i < boxes.len()
        invariant
            cs == crate::boxes::box_views(boxes@),
            forall|k: int| 0 <= k < cs.len() ==> #[trigger] crate::boxes::wf_child(
                mdia_data@,
                cs[k],
            ),
            i <= boxes@.len(),
            f == mdia_child_dur_fn(mdia_data@, duration as int),
            output@ == crate::boxes::serialize_raws(racc),
            crate::boxes::fold_children(cs, f) == match crate::boxes::fold_children(
                cs.skip(i as int),
                f,
            ) {
                Ok(rest) => Ok::<Seq<crate::boxes::RawBox>, Mp4Error>(racc + rest),
                Err(e) => Err::<Seq<crate::boxes::RawBox>, Mp4Error>(e),
            },
            spec_reset_mdia_dur(mdia_data@, duration as int) == match crate::boxes::fold_children(
                cs,
                f,
            ) {
                Ok(raws) => Ok::<Seq<u8>, Mp4Error>(crate::boxes::serialize_raws(raws)),
                Err(e) => Err::<Seq<u8>, Mp4Error>(e),
            },
        decreases boxes@.len() - i,
    {
        proof {
            assert(cs.skip(i as int)[0] == cs[i as int]);
            assert(cs.skip(i as int).drop_first() =~= cs.skip(i as int + 1));
        }
        let ghost prev_racc = racc;
        let b = &boxes[i];
        if crate::boxes::box_type_is(b, MDHD) {
            match reset_mdhd_with_duration(b.data.as_slice(), duration) {
                Ok(new_payload) => {
                    let ghost raw = crate::boxes::RawBox::Boxed { typ: b@.typ, payload: new_payload@ };
                    proof {
                        assert(f(cs[i as int]) == Ok::<Seq<crate::boxes::RawBox>, Mp4Error>(
                            seq![raw],
                        ));
                    }
                    crate::boxes::write_box(&mut output, &b.box_type, new_payload.as_slice());
                    proof {
                        crate::boxes::lemma_serialize_raws_push(prev_racc, raw);
                        racc = prev_racc.push(raw);
                        match crate::boxes::fold_children(cs.skip(i as int + 1), f) {
                            Ok(rest) => {
                                assert(prev_racc + (seq![raw] + rest) =~= racc + rest);
                            },
                            Err(_) => {},
                        }
                    }
                },
                Err(e) => {
                    return Err(e);
                },
            }
        } else {
            let ghost raw = crate::boxes::RawBox::Span {
                bytes: mdia_data@.subrange(b@.offset, b@.offset + b@.size),
            };
            proof {
                assert(f(cs[i as int]) == Ok::<Seq<crate::boxes::RawBox>, Mp4Error>(seq![raw]));
                assert(crate::boxes::wf_child(mdia_data@, cs[i as int]));
            }
            push_child_span(&mut output, mdia_data, b);
            proof {
                crate::boxes::lemma_serialize_raws_push(prev_racc, raw);
                racc = prev_racc.push(raw);
                match crate::boxes::fold_children(cs.skip(i as int + 1), f) {
                    Ok(rest) => {
                        assert(prev_racc + (seq![raw] + rest) =~= racc + rest);
                    },
                    Err(_) => {},
                }
            }
        }
        i = i + 1;
    }
    proof {
        assert(cs.skip(boxes@.len() as int) =~= Seq::<SpecBox>::empty());
        match crate::boxes::fold_children(cs, f) {
            Ok(raws) => {
                assert(racc + Seq::<crate::boxes::RawBox>::empty() =~= racc);
            },
            Err(_) => {},
        }
    }
    Ok(output)
}


/// The per-child rewrite of a trak box on the fragmented path: tkhd
/// gets zeroed times and the computed duration, mdia is rewritten
/// recursively; everything else is copied unchanged.
pub open spec fn trak_child_dur_fn(p: Seq<u8>, dur: int) -> spec_fn(SpecBox) -> Result<
    Seq<crate::boxes::RawBox>,
    Mp4Error,
> {
    |c: SpecBox| if c.typ == TKHD as int {
        match spec_reset_tkhd_dur(c.payload, dur) {
            Err(e) => Err(e),
            Ok(np) => Ok(seq![crate::boxes::RawBox::Boxed { typ: c.typ, payload: np }]),
        }
    } else if c.typ == MDIA as int {
        match spec_reset_mdia_dur(c.payload, dur) {
            Err(e) => Err(e),
            Ok(np) => Ok(seq![crate::boxes::RawBox::Boxed { typ: c.typ, payload: np }]),
        }
    } else {
        Ok(seq![crate::boxes::RawBox::Span { bytes: p.subrange(c.offset, c.offset + c.size) }])
    }
}

/// A trak payload rewritten on the fragmented path.
#[verifier::opaque]
pub open spec fn spec_reset_trak_dur(p: Seq<u8>, dur: int) -> Result<Seq<u8>, Mp4Error> {
    match crate::boxes::spec_parse_boxes(p, 0) {
        Err(e) => Err(e),
        Ok(cs) => match crate::boxes::fold_children(cs, trak_child_dur_fn(p, dur)) {
            Err(e) => Err(e),
            Ok(raws) => Ok(crate::boxes::serialize_raws(raws)),
        },
    }
}

#[verifier::rlimit(100)]
fn reset_trak_timestamps_with_duration(trak_data: &[u8], duration: u64) -> (r: Result<Vec<u8>, Mp4Error>)
    ensures
        match r {
            Ok(out) => spec_reset_trak_dur(trak_data@, duration as int) == Ok::<Seq<u8>, Mp4Error>(out@),
            Err(e) => spec_reset_trak_dur(trak_data@, duration as int) == Err::<Seq<u8>, Mp4Error>(e),
        },
{
    proof {
        reveal(spec_reset_trak_dur);
    }
    let boxes = match crate::boxes::parse_container_box(trak_data) {
        Ok(bs) => bs,
        Err(e) => {
            return Err(e);
        },
    };
    let ghost cs = crate::boxes::box_views(boxes@);

    let ghost f = trak_child_dur_fn(trak_data@, duration as int);
    let mut output: Vec<u8> = Vec::new();
    let ghost mut racc: Seq<crate::boxes::RawBox> = Seq::empty();
    let mut i: usize = 0;
    proof {
        assert(cs.skip(0) =~= cs);
        crate::boxes::lemma_parse_boxes_wf(trak_data@, 0);
        match crate::boxes::fold_children(cs, f) {
            Ok(rest) => {
                assert(racc + rest =~= rest);
            },
            Err(_) => {},
        }
        assert(crate::boxes::serialize_raws(racc) =~= Seq::<u8>::empty());
    }
    while i < boxes.len()
        invariant
            cs == crate::boxes::box_views(boxes@),
            i <= boxes@.len(),
            forall|k: int| 0 <= k < cs.len() ==> #[trigger] crate::boxes::wf_child(
                trak_data@,
                cs[k],
            ),
            f == trak_child_dur_fn(trak_data@, duration as int),
            output@ == crate::boxes::serialize_raws(racc),
            crate::boxes::fold_children(cs, f) == match crate::boxes::fold_children(
                cs.skip(i as int),
                f,
            ) {
                Ok(rest) => Ok::<Seq<crate::boxes::RawBox>, Mp4Error>(racc + rest),
                Err(e) => Err::<Seq<crate::boxes::RawBox>, Mp4Error>(e),
            },
            spec_reset_trak_dur(trak_data@, duration as int) == match crate::boxes::fold_children(cs, f) {
                Ok(raws) => Ok::<Seq<u8>, Mp4Error>(crate::boxes::serialize_raws(raws)),
                Err(e) => Err::<Seq<u8>, Mp4Error>(e),
            },
        decreases boxes@.len() - i,
    {
        proof {
            assert(cs.skip(i as int)[0] == cs[i as int]);
            assert(cs.skip(i as int).drop_first() =~= cs.skip(i as int + 1));
        }
        let ghost prev_racc = racc;
        let b = &boxes[i];
        if crate::boxes::box_type_is(b, TKHD) {
            match reset_tkhd_with_duration(b.data.as_slice(), duration) {
                Ok(new_payload) => {
                    let ghost raw = crate::boxes::RawBox::Boxed { typ: b@.typ, payload: new_payload@ };
                    proof {
                        assert(f(cs[i as int]) == Ok::<Seq<crate::boxes::RawBox>, Mp4Error>(
                            seq![raw],
                        ));
                    }
                    crate::boxes::write_box(&mut output, &b.box_type, new_payload.as_slice());
                    proof {
                        crate::boxes::lemma_serialize_raws_push(prev_racc, raw);
                        racc = prev_racc.push(raw);
                        match crate::boxes::fold_children(cs.skip(i as int + 1), f) {
                            Ok(rest) => {
                                assert(prev_racc + (seq![raw] + rest) =~= racc + rest);
                            },
                            Err(_) => {},
                        }
                    }
                },
                Err(e) => {
                    return Err(e);
                },
            }
        } else if crate::boxes::box_type_is(b, MDIA) {
            match reset_mdia_timestamps_with_duration(b.data.as_slice(), duration) {
                Ok(new_payload) => {
                    let ghost raw = crate::boxes::RawBox::Boxed { typ: b@.typ, payload: new_payload@ };
                    proof {
                        assert(f(cs[i as int]) == Ok::<Seq<crate::boxes::RawBox>, Mp4Error>(
                            seq![raw],
                        ));
                    }
                    crate::boxes::write_box(&mut output, &b.box_type, new_payload.as_slice());
                    proof {
                        crate::boxes::lemma_serialize_raws_push(prev_racc, raw);
                        racc = prev_racc.push(raw);
                        match crate::boxes::fold_children(cs.skip(i as int + 1), f) {
                            Ok(rest) => {
                                assert(prev_racc + (seq![raw] + rest) =~= racc + rest);
                            },
                            Err(_) => {},
                        }
                    }
                },
                Err(e) => {
                    return Err(e);
                },
            }
        } else {
            let ghost raw = crate::boxes::RawBox::Span {
                bytes: trak_data@.subrange(b@.offset, b@.offset + b@.size),
            };
            proof {
                assert(f(cs[i as int]) == Ok::<Seq<crate::boxes::RawBox>, Mp4Error>(seq![raw]));
                assert(crate::boxes::wf_child(trak_data@, cs[i as int]));
            }
            push_child_span(&mut output, trak_data, b);
            proof {
                crate::boxes::lemma_serialize_raws_push(prev_racc, raw);
                racc = prev_racc.push(raw);
                match crate::boxes::fold_children(cs.skip(i as int + 1), f) {
                    Ok(rest) => {
                        assert(prev_racc + (seq![raw] + rest) =~= racc + rest);
                    },
                    Err(_) => {},
                }
            }
        }
        i = i + 1;
    }
    proof {
        assert(cs.skip(boxes@.len() as int) =~= Seq::<SpecBox>::empty());
        match crate::boxes::fold_children(cs, f) {
            Ok(raws) => {
                assert(racc + Seq::<crate::boxes::RawBox>::empty() =~= racc);
            },
            Err(_) => {},
        }
    }
    Ok(output)
}


/// The per-child rewrite of an mdia box on the flat path: mdhd gets
/// zeroed times (duration untouched); everything else is copied.
pub open spec fn mdia_child_flat_fn(p: Seq<u8>) -> spec_fn(SpecBox) -> Result<
    Seq<crate::boxes::RawBox>,
    Mp4Error,
> {
    |c: SpecBox| if c.typ == MDHD as int {
        match spec_zero_times(c.payload) {
            Err(e) => Err(e),
            Ok(np) => Ok(seq![crate::boxes::RawBox::Boxed { typ: c.typ, payload: np }]),
        }
    } else {
        Ok(seq![crate::boxes::RawBox::Span { bytes: p.subrange(c.offset, c.offset + c.size) }])
    }
}

/// An mdia payload rewritten on the flat path.
#[verifier::opaque]
pub open spec fn spec_reset_mdia_flat(p: Seq<u8>) -> Result<Seq<u8>, Mp4Error> {
    match crate::boxes::spec_parse_boxes(p, 0) {
        Err(e) => Err(e),
        Ok(cs) => match crate::boxes::fold_children(cs, mdia_child_flat_fn(p)) {
            Err(e) => Err(e),
            Ok(raws) => Ok(crate::boxes::serialize_raws(raws)),
        },
    }
}

#[verifier::rlimit(100)]
fn reset_mdia_timestamps(mdia_data: &[u8]) -> (r: Result<Vec<u8>, Mp4Error>)
    ensures
        match r {
            Ok(out) => spec_reset_mdia_flat(mdia_data@) == Ok::<Seq<u8>, Mp4Error>(out@),
            Err(e) => spec_reset_mdia_flat(mdia_data@) == Err::<Seq<u8>, Mp4Error>(e),
        },
{
    proof {
        reveal(spec_reset_mdia_flat);
    }
    let boxes = match crate::boxes::parse_container_box(mdia_data) {
        Ok(bs) => bs,
        Err(e) => {
            return Err(e);
        },
    };
    let ghost cs = crate::boxes::box_views(boxes@);

    let ghost f = mdia_child_flat_fn(mdia_data@);
    let mut output: Vec<u8> = Vec::new();
    let ghost mut racc: Seq<crate::boxes::RawBox> = Seq::empty();
    let mut i: usize = 0;
    proof {
        assert(cs.skip(0) =~= cs);
        crate::boxes::lemma_parse_boxes_wf(mdia_data@, 0);
        match crate::boxes::fold_children(cs, f) {
            Ok(rest) => {
                assert(racc + rest =~= rest);
            },
            Err(_) => {},
        }
        assert(crate::boxes::serialize_raws(racc) =~= Seq::<u8>::empty());
    }
    while i < boxes.len()
        invariant
            cs == crate::boxes::box_views(boxes@),
            i <= boxes@.len(),
            forall|k: int| 0 <= k < cs.len() ==> #[trigger] crate::boxes::wf_child(
                mdia_data@,
                cs[k],
            ),
            f == mdia_child_flat_fn(mdia_data@),
            output@ == crate::boxes::serialize_raws(racc),
            crate::boxes::fold_children(cs, f) == match crate::boxes::fold_children(
                cs.skip(i as int),
                f,
            ) {
                Ok(rest) => Ok::<Seq<crate::boxes::RawBox>, Mp4Error>(racc + rest),
                Err(e) => Err::<Seq<crate::boxes::RawBox>, Mp4Error>(e),
            },
            spec_reset_mdia_flat(mdia_data@) == match crate::boxes::fold_children(cs, f) {
                Ok(raws) => Ok::<Seq<u8>, Mp4Error>(crate::boxes::serialize_raws(raws)),
                Err(e) => Err::<Seq<u8>, Mp4Error>(e),
            },
        decreases boxes@.len() - i,
    {
        proof {
            assert(cs.skip(i as int)[0] == cs[i as int]);
            assert(cs.skip(i as int).drop_first() =~= cs.skip(i as int + 1));
        }
        let ghost prev_racc = racc;
        let b = &boxes[i];
        if crate::boxes::box_type_is(b, MDHD) {
            match reset_mdhd(b.data.as_slice()) {
                Ok(new_payload) => {
                    let ghost raw = crate::boxes::RawBox::Boxed { typ: b@.typ, payload: new_payload@ };
                    proof {
                        assert(f(cs[i as int]) == Ok::<Seq<crate::boxes::RawBox>, Mp4Error>(
                            seq![raw],
                        ));
                    }
                    crate::boxes::write_box(&mut output, &b.box_type, new_payload.as_slice());
                    proof {
                        crate::boxes::lemma_serialize_raws_push(prev_racc, raw);
                        racc = prev_racc.push(raw);
                        match crate::boxes::fold_children(cs.skip(i as int + 1), f) {
                            Ok(rest) => {
                                assert(prev_racc + (seq![raw] + rest) =~= racc + rest);
                            },
                            Err(_) => {},
                        }
                    }
                },
                Err(e) => {
                    return Err(e);
                },
            }
        } else {
            let ghost raw = crate::boxes::RawBox::Span {
                bytes: mdia_data@.subrange(b@.offset, b@.offset + b@.size),
            };
            proof {
                assert(f(cs[i as int]) == Ok::<Seq<crate::boxes::RawBox>, Mp4Error>(seq![raw]));
                assert(crate::boxes::wf_child(mdia_data@, cs[i as int]));
            }
            push_child_span(&mut output, mdia_data, b);
            proof {
                crate::boxes::lemma_serialize_raws_push(prev_racc, raw);
                racc = prev_racc.push(raw);
                match crate::boxes::fold_children(cs.skip(i as int + 1), f) {
                    Ok(rest) => {
                        assert(prev_racc + (seq![raw] + rest) =~= racc + rest);
                    },
                    Err(_) => {},
                }
            }
        }
        i = i + 1;
    }
    proof {
        assert(cs.skip(boxes@.len() as int) =~= Seq::<SpecBox>::empty());
        match crate::boxes::fold_children(cs, f) {
            Ok(raws) => {
                assert(racc + Seq::<crate::boxes::RawBox>::empty() =~= racc);
            },
            Err(_) => {},
        }
    }
    Ok(output)
}


/// The per-child rewrite of a trak box on the flat path: tkhd gets
/// zeroed times, mdia is rewritten recursively, and any edts (edit
/// list) is dropped, since a delay is meaningless once playback starts
/// at zero; everything else is copied.
pub open spec fn trak_child_flat_fn(p: Seq<u8>) -> spec_fn(SpecBox) -> Result<
    Seq<crate::boxes::RawBox>,
    Mp4Error,
> {
    |c: SpecBox| if c.typ == TKHD as int {
        match spec_zero_times(c.payload) {
            Err(e) => Err(e),
            Ok(np) => Ok(seq![crate::boxes::RawBox::Boxed { typ: c.typ, payload: np }]),
        }
    } else if c.typ == MDIA as int {
        match spec_reset_mdia_flat(c.payload) {
            Err(e) => Err(e),
            Ok(np) => Ok(seq![crate::boxes::RawBox::Boxed { typ: c.typ, payload: np }]),
        }
    } else if c.typ == EDTS as int {
        Ok(Seq::<crate::boxes::RawBox>::empty())
    } else {
        Ok(seq![crate::boxes::RawBox::Span { bytes: p.subrange(c.offset, c.offset + c.size) }])
    }
}

/// A trak payload rewritten on the flat path.
#[verifier::opaque]
pub open spec fn spec_reset_trak_flat(p: Seq<u8>) -> Result<Seq<u8>, Mp4Error> {
    match crate::boxes::spec_parse_boxes(p, 0) {
        Err(e) => Err(e),
        Ok(cs) => match crate::boxes::fold_children(cs, trak_child_flat_fn(p)) {
            Err(e) => Err(e),
            Ok(raws) => Ok(crate::boxes::serialize_raws(raws)),
        },
    }
}

#[verifier::rlimit(100)]
fn reset_trak_timestamps(trak_data: &[u8]) -> (r: Result<Vec<u8>, Mp4Error>)
    ensures
        match r {
            Ok(out) => spec_reset_trak_flat(trak_data@) == Ok::<Seq<u8>, Mp4Error>(out@),
            Err(e) => spec_reset_trak_flat(trak_data@) == Err::<Seq<u8>, Mp4Error>(e),
        },
{
    proof {
        reveal(spec_reset_trak_flat);
    }
    let boxes = match crate::boxes::parse_container_box(trak_data) {
        Ok(bs) => bs,
        Err(e) => {
            return Err(e);
        },
    };
    let ghost cs = crate::boxes::box_views(boxes@);

    let ghost f = trak_child_flat_fn(trak_data@);
    let mut output: Vec<u8> = Vec::new();
    let ghost mut racc: Seq<crate::boxes::RawBox> = Seq::empty();
    let mut i: usize = 0;
    proof {
        assert(cs.skip(0) =~= cs);
        crate::boxes::lemma_parse_boxes_wf(trak_data@, 0);
        match crate::boxes::fold_children(cs, f) {
            Ok(rest) => {
                assert(racc + rest =~= rest);
            },
            Err(_) => {},
        }
        assert(crate::boxes::serialize_raws(racc) =~= Seq::<u8>::empty());
    }
    while i < boxes.len()
        invariant
            cs == crate::boxes::box_views(boxes@),
            i <= boxes@.len(),
            forall|k: int| 0 <= k < cs.len() ==> #[trigger] crate::boxes::wf_child(
                trak_data@,
                cs[k],
            ),
            f == trak_child_flat_fn(trak_data@),
            output@ == crate::boxes::serialize_raws(racc),
            crate::boxes::fold_children(cs, f) == match crate::boxes::fold_children(
                cs.skip(i as int),
                f,
            ) {
                Ok(rest) => Ok::<Seq<crate::boxes::RawBox>, Mp4Error>(racc + rest),
                Err(e) => Err::<Seq<crate::boxes::RawBox>, Mp4Error>(e),
            },
            spec_reset_trak_flat(trak_data@) == match crate::boxes::fold_children(cs, f) {
                Ok(raws) => Ok::<Seq<u8>, Mp4Error>(crate::boxes::serialize_raws(raws)),
                Err(e) => Err::<Seq<u8>, Mp4Error>(e),
            },
        decreases boxes@.len() - i,
    {
        proof {
            assert(cs.skip(i as int)[0] == cs[i as int]);
            assert(cs.skip(i as int).drop_first() =~= cs.skip(i as int + 1));
        }
        let ghost prev_racc = racc;
        let b = &boxes[i];
        if crate::boxes::box_type_is(b, TKHD) {
            match reset_tkhd(b.data.as_slice()) {
                Ok(new_payload) => {
                    let ghost raw = crate::boxes::RawBox::Boxed { typ: b@.typ, payload: new_payload@ };
                    proof {
                        assert(f(cs[i as int]) == Ok::<Seq<crate::boxes::RawBox>, Mp4Error>(
                            seq![raw],
                        ));
                    }
                    crate::boxes::write_box(&mut output, &b.box_type, new_payload.as_slice());
                    proof {
                        crate::boxes::lemma_serialize_raws_push(prev_racc, raw);
                        racc = prev_racc.push(raw);
                        match crate::boxes::fold_children(cs.skip(i as int + 1), f) {
                            Ok(rest) => {
                                assert(prev_racc + (seq![raw] + rest) =~= racc + rest);
                            },
                            Err(_) => {},
                        }
                    }
                },
                Err(e) => {
                    return Err(e);
                },
            }
        } else if crate::boxes::box_type_is(b, MDIA) {
            match reset_mdia_timestamps(b.data.as_slice()) {
                Ok(new_payload) => {
                    let ghost raw = crate::boxes::RawBox::Boxed { typ: b@.typ, payload: new_payload@ };
                    proof {
                        assert(f(cs[i as int]) == Ok::<Seq<crate::boxes::RawBox>, Mp4Error>(
                            seq![raw],
                        ));
                    }
                    crate::boxes::write_box(&mut output, &b.box_type, new_payload.as_slice());
                    proof {
                        crate::boxes::lemma_serialize_raws_push(prev_racc, raw);
                        racc = prev_racc.push(raw);
                        match crate::boxes::fold_children(cs.skip(i as int + 1), f) {
                            Ok(rest) => {
                                assert(prev_racc + (seq![raw] + rest) =~= racc + rest);
                            },
                            Err(_) => {},
                        }
                    }
                },
                Err(e) => {
                    return Err(e);
                },
            }
        } else if crate::boxes::box_type_is(b, EDTS) {
            proof {
                assert(f(cs[i as int]) == Ok::<Seq<crate::boxes::RawBox>, Mp4Error>(
                    Seq::<crate::boxes::RawBox>::empty(),
                ));
                match crate::boxes::fold_children(cs.skip(i as int + 1), f) {
                    Ok(rest) => {
                        assert(racc + (Seq::<crate::boxes::RawBox>::empty() + rest) =~= racc
                            + rest);
                    },
                    Err(_) => {},
                }
            }
        } else {
            let ghost raw = crate::boxes::RawBox::Span {
                bytes: trak_data@.subrange(b@.offset, b@.offset + b@.size),
            };
            proof {
                assert(f(cs[i as int]) == Ok::<Seq<crate::boxes::RawBox>, Mp4Error>(seq![raw]));
                assert(crate::boxes::wf_child(trak_data@, cs[i as int]));
            }
            push_child_span(&mut output, trak_data, b);
            proof {
                crate::boxes::lemma_serialize_raws_push(prev_racc, raw);
                racc = prev_racc.push(raw);
                match crate::boxes::fold_children(cs.skip(i as int + 1), f) {
                    Ok(rest) => {
                        assert(prev_racc + (seq![raw] + rest) =~= racc + rest);
                    },
                    Err(_) => {},
                }
            }
        }
        i = i + 1;
    }
    proof {
        assert(cs.skip(boxes@.len() as int) =~= Seq::<SpecBox>::empty());
        match crate::boxes::fold_children(cs, f) {
            Ok(raws) => {
                assert(racc + Seq::<crate::boxes::RawBox>::empty() =~= racc);
            },
            Err(_) => {},
        }
    }
    Ok(output)
}


/// The per-child rewrite of the moov box on the flat path: mvhd gets
/// zeroed times, each trak is rewritten recursively; everything else
/// is copied.
pub open spec fn moov_child_flat_fn(p: Seq<u8>) -> spec_fn(SpecBox) -> Result<
    Seq<crate::boxes::RawBox>,
    Mp4Error,
> {
    |c: SpecBox| if c.typ == MVHD as int {
        match spec_zero_times(c.payload) {
            Err(e) => Err(e),
            Ok(np) => Ok(seq![crate::boxes::RawBox::Boxed { typ: c.typ, payload: np }]),
        }
    } else if c.typ == TRAK as int {
        match spec_reset_trak_flat(c.payload) {
            Err(e) => Err(e),
            Ok(np) => Ok(seq![crate::boxes::RawBox::Boxed { typ: c.typ, payload: np }]),
        }
    } else {
        Ok(seq![crate::boxes::RawBox::Span { bytes: p.subrange(c.offset, c.offset + c.size) }])
    }
}

/// A moov payload rewritten on the flat path: every mvhd/tkhd/mdhd has
/// its creation and modification times zeroed, edit lists are dropped,
/// durations are kept.
#[verifier::opaque]
pub open spec fn spec_reset_moov_flat(p: Seq<u8>) -> Result<Seq<u8>, Mp4Error> {
    match crate::boxes::spec_parse_boxes(p, 0) {
        Err(e) => Err(e),
        Ok(cs) => match crate::boxes::fold_children(cs, moov_child_flat_fn(p)) {
            Err(e) => Err(e),
            Ok(raws) => Ok(crate::boxes::serialize_raws(raws)),
        },
    }
}

#[verifier::rlimit(100)]
fn reset_moov_timestamps(moov_data: &[u8]) -> (r: Result<Vec<u8>, Mp4Error>)
    ensures
        match r {
            Ok(out) => spec_reset_moov_flat(moov_data@) == Ok::<Seq<u8>, Mp4Error>(out@),
            Err(e) => spec_reset_moov_flat(moov_data@) == Err::<Seq<u8>, Mp4Error>(e),
        },
{
    proof {
        reveal(spec_reset_moov_flat);
    }
    let boxes = match crate::boxes::parse_container_box(moov_data) {
        Ok(bs) => bs,
        Err(e) => {
            return Err(e);
        },
    };
    let ghost cs = crate::boxes::box_views(boxes@);

    let ghost f = moov_child_flat_fn(moov_data@);
    let mut output: Vec<u8> = Vec::new();
    let ghost mut racc: Seq<crate::boxes::RawBox> = Seq::empty();
    let mut i: usize = 0;
    proof {
        assert(cs.skip(0) =~= cs);
        crate::boxes::lemma_parse_boxes_wf(moov_data@, 0);
        match crate::boxes::fold_children(cs, f) {
            Ok(rest) => {
                assert(racc + rest =~= rest);
            },
            Err(_) => {},
        }
        assert(crate::boxes::serialize_raws(racc) =~= Seq::<u8>::empty());
    }
    while i < boxes.len()
        invariant
            cs == crate::boxes::box_views(boxes@),
            i <= boxes@.len(),
            forall|k: int| 0 <= k < cs.len() ==> #[trigger] crate::boxes::wf_child(
                moov_data@,
                cs[k],
            ),
            f == moov_child_flat_fn(moov_data@),
            output@ == crate::boxes::serialize_raws(racc),
            crate::boxes::fold_children(cs, f) == match crate::boxes::fold_children(
                cs.skip(i as int),
                f,
            ) {
                Ok(rest) => Ok::<Seq<crate::boxes::RawBox>, Mp4Error>(racc + rest),
                Err(e) => Err::<Seq<crate::boxes::RawBox>, Mp4Error>(e),
            },
            spec_reset_moov_flat(moov_data@) == match crate::boxes::fold_children(cs, f) {
                Ok(raws) => Ok::<Seq<u8>, Mp4Error>(crate::boxes::serialize_raws(raws)),
                Err(e) => Err::<Seq<u8>, Mp4Error>(e),
            },
        decreases boxes@.len() - i,
    {
        proof {
            assert(cs.skip(i as int)[0] == cs[i as int]);
            assert(cs.skip(i as int).drop_first() =~= cs.skip(i as int + 1));
        }
        let ghost prev_racc = racc;
        let b = &boxes[i];
        if crate::boxes::box_type_is(b, MVHD) {
            match reset_mvhd(b.data.as_slice()) {
                Ok(new_payload) => {
                    let ghost raw = crate::boxes::RawBox::Boxed { typ: b@.typ, payload: new_payload@ };
                    proof {
                        assert(f(cs[i as int]) == Ok::<Seq<crate::boxes::RawBox>, Mp4Error>(
                            seq![raw],
                        ));
                    }
                    crate::boxes::write_box(&mut output, &b.box_type, new_payload.as_slice());
                    proof {
                        crate::boxes::lemma_serialize_raws_push(prev_racc, raw);
                        racc = prev_racc.push(raw);
                        match crate::boxes::fold_children(cs.skip(i as int + 1), f) {
                            Ok(rest) => {
                                assert(prev_racc + (seq![raw] + rest) =~= racc + rest);
                            },
                            Err(_) => {},
                        }
                    }
                },
                Err(e) => {
                    return Err(e);
                },
            }
        } else if crate::boxes::box_type_is(b, TRAK) {
            match reset_trak_timestamps(b.data.as_slice()) {
                Ok(new_payload) => {
                    let ghost raw = crate::boxes::RawBox::Boxed { typ: b@.typ, payload: new_payload@ };
                    proof {
                        assert(f(cs[i as int]) == Ok::<Seq<crate::boxes::RawBox>, Mp4Error>(
                            seq![raw],
                        ));
                    }
                    crate::boxes::write_box(&mut output, &b.box_type, new_payload.as_slice());
                    proof {
                        crate::boxes::lemma_serialize_raws_push(prev_racc, raw);
                        racc = prev_racc.push(raw);
                        match crate::boxes::fold_children(cs.skip(i as int + 1), f) {
                            Ok(rest) => {
                                assert(prev_racc + (seq![raw] + rest) =~= racc + rest);
                            },
                            Err(_) => {},
                        }
                    }
                },
                Err(e) => {
                    return Err(e);
                },
            }
        } else {
            let ghost raw = crate::boxes::RawBox::Span {
                bytes: moov_data@.subrange(b@.offset, b@.offset + b@.size),
            };
            proof {
                assert(f(cs[i as int]) == Ok::<Seq<crate::boxes::RawBox>, Mp4Error>(seq![raw]));
                assert(crate::boxes::wf_child(moov_data@, cs[i as int]));
            }
            push_child_span(&mut output, moov_data, b);
            proof {
                crate::boxes::lemma_serialize_raws_push(prev_racc, raw);
                racc = prev_racc.push(raw);
                match crate::boxes::fold_children(cs.skip(i as int + 1), f) {
                    Ok(rest) => {
                        assert(prev_racc + (seq![raw] + rest) =~= racc + rest);
                    },
                    Err(_) => {},
                }
            }
        }
        i = i + 1;
    }
    proof {
        assert(cs.skip(boxes@.len() as int) =~= Seq::<SpecBox>::empty());
        match crate::boxes::fold_children(cs, f) {
            Ok(raws) => {
                assert(racc + Seq::<crate::boxes::RawBox>::empty() =~= racc);
            },
            Err(_) => {},
        }
    }
    Ok(output)
}


/// The first tfhd child whose payload is wide enough to hold a track
/// identifier.
pub open spec fn first_wide_tfhd(cs: Seq<SpecBox>) -> Option<SpecBox>
    decreases cs.len(),
{
    if cs.len() == 0 {
        None
    } else if cs[0].typ == TFHD as int && cs[0].payload.len() >= 8 {
        Some(cs[0])
    } else {
        first_wide_tfhd(cs.drop_first())
    }
}

/// The zero-based track index a traf belongs to: the tfhd track_ID
/// (1-based) minus one, or zero when no usable tfhd exists.
pub open spec fn spec_traf_track_index(cs: Seq<SpecBox>) -> int {
    match first_wide_tfhd(cs) {
        None => 0,
        Some(t) => if be32(t.payload, 4) > 0 {
            be32(t.payload, 4) - 1
        } else {
            0
        },
    }
}

/// Reads the zero-based track index of a parsed traf child list.
fn traf_track_index(boxes: &[Mp4Box]) -> (r: usize)
    ensures
        r == spec_traf_track_index(crate::boxes::box_views(boxes@)),
{
    let ghost cs = crate::boxes::box_views(boxes@);
    let mut i: usize = 0;
    proof {
        assert(cs.skip(0) =~= cs);
    }
    while i < boxes.len()
        invariant
            cs == crate::boxes::box_views(boxes@),
            i <= boxes@.len(),
            first_wide_tfhd(cs) == first_wide_tfhd(cs.skip(i as int)),
        decreases boxes@.len() - i,
    {
        proof {
            assert(cs.skip(i as int)[0] == cs[i as int]);
            assert(cs.skip(i as int).drop_first() =~= cs.skip(i as int + 1));
        }
        let b = &boxes[i];
        if crate::boxes::box_type_is(b, TFHD) && b.data.len() >= 8 {
            let tid = crate::bytes::read_be_u32(b.data.as_slice(), 4);
            if tid > 0 {
                return (tid - 1) as usize;
            } else {
                return 0;
            }
        }
        i = i + 1;
    }
    proof {
        assert(cs.skip(boxes@.len() as int) =~= Seq::<SpecBox>::empty());
    }
    0
}

/// The per-child rewrite of a traf box: tfdt is rebased by the track's
/// offset; everything else is copied.
pub open spec fn traf_child_rel_fn(p: Seq<u8>, off: int) -> spec_fn(SpecBox) -> Result<
    Seq<crate::boxes::RawBox>,
    Mp4Error,
> {
    |c: SpecBox| if c.typ == TFDT as int {
        match spec_reset_tfdt(c.payload, off) {
            Err(e) => Err(e),
            Ok(np) => Ok(seq![crate::boxes::RawBox::Boxed { typ: c.typ, payload: np }]),
        }
    } else {
        Ok(seq![crate::boxes::RawBox::Span { bytes: p.subrange(c.offset, c.offset + c.size) }])
    }
}

/// The rebase offset a traf uses: the entry of `offs` its track index
/// selects, or zero when the index is out of range.
pub open spec fn spec_traf_offset(cs: Seq<SpecBox>, offs: Seq<u64>) -> int {
    if spec_traf_track_index(cs) < offs.len() {
        offs[spec_traf_track_index(cs)] as int
    } else {
        0
    }
}

/// A traf payload with its tfdt rebased by the track's offset.
#[verifier::opaque]
pub open spec fn spec_reset_traf_rel(p: Seq<u8>, offs: Seq<u64>) -> Result<Seq<u8>, Mp4Error> {
    match crate::boxes::spec_parse_boxes(p, 0) {
        Err(e) => Err(e),
        Ok(cs) => match crate::boxes::fold_children(
            cs,
            traf_child_rel_fn(p, spec_traf_offset(cs, offs)),
        ) {
            Err(e) => Err(e),
            Ok(raws) => Ok(crate::boxes::serialize_raws(raws)),
        },
    }
}

#[verifier::rlimit(100)]
fn reset_traf_timestamps_relative(traf_data: &[u8], first_tfdt_offsets: &[u64]) -> (r: Result<Vec<u8>, Mp4Error>)
    ensures
        match r {
            Ok(out) => spec_reset_traf_rel(traf_data@, first_tfdt_offsets@) == Ok::<Seq<u8>, Mp4Error>(out@),
            Err(e) => spec_reset_traf_rel(traf_data@, first_tfdt_offsets@) == Err::<Seq<u8>, Mp4Error>(e),
        },
{
    proof {
        reveal(spec_reset_traf_rel);
    }
    let boxes = match crate::boxes::parse_container_box(traf_data) {
        Ok(bs) => bs,
        Err(e) => {
            return Err(e);
        },
    };
    let ghost cs = crate::boxes::box_views(boxes@);
    let idx = traf_track_index(boxes.as_slice());
    let off: u64 = if idx < first_tfdt_offsets.len() {
        first_tfdt_offsets[idx]
    } else {
        0
    };
    proof {
        assert(off as int == spec_traf_offset(cs, first_tfdt_offsets@));
    }
    let ghost f = traf_child_rel_fn(traf_data@, off as int);
    let mut output: Vec<u8> = Vec::new();
    let ghost mut racc: Seq<crate::boxes::RawBox> = Seq::empty();
    let mut i: usize = 0;
    proof {
        assert(cs.skip(0) =~= cs);
        crate::boxes::lemma_parse_boxes_wf(traf_data@, 0);
        match crate::boxes::fold_children(cs, f) {
            Ok(rest) => {
                assert(racc + rest =~= rest);
            },
            Err(_) => {},
        }
        assert(crate::boxes::serialize_raws(racc) =~= Seq::<u8>::empty());
    }
    while i < boxes.len()
        invariant
            cs == crate::boxes::box_views(boxes@),
            i <= boxes@.len(),
            forall|k: int| 0 <= k < cs.len() ==> #[trigger] crate::boxes::wf_child(
                traf_data@,
                cs[k],
            ),
            f == traf_child_rel_fn(traf_data@, off as int),
            output@ == crate::boxes::serialize_raws(racc),
            crate::boxes::fold_children(cs, f) == match crate::boxes::fold_children(
                cs.skip(i as int),
                f,
            ) {
                Ok(rest) => Ok::<Seq<crate::boxes::RawBox>, Mp4Error>(racc + rest),
                Err(e) => Err::<Seq<crate::boxes::RawBox>, Mp4Error>(e),
            },
            spec_reset_traf_rel(traf_data@, first_tfdt_offsets@) == match crate::boxes::fold_children(cs, f) {
                Ok(raws) => Ok::<Seq<u8>, Mp4Error>(crate::boxes::serialize_raws(raws)),
                Err(e) => Err::<Seq<u8>, Mp4Error>(e),
            },
        decreases boxes@.len() - i,
    {
        proof {
            assert(cs.skip(i as int)[0] == cs[i as int]);
            assert(cs.skip(i as int).drop_first() =~= cs.skip(i as int + 1));
        }
        let ghost prev_racc = racc;
        let b = &boxes[i];
        if crate::boxes::box_type_is(b, TFDT) {
            match reset_tfdt_relative(b.data.as_slice(), off) {
                Ok(new_payload) => {
                    let ghost raw = crate::boxes::RawBox::Boxed { typ: b@.typ, payload: new_payload@ };
                    proof {
                        assert(f(cs[i as int]) == Ok::<Seq<crate::boxes::RawBox>, Mp4Error>(
                            seq![raw],
                        ));
                    }
                    crate::boxes::write_box(&mut output, &b.box_type, new_payload.as_slice());
                    proof {
                        crate::boxes::lemma_serialize_raws_push(prev_racc, raw);
                        racc = prev_racc.push(raw);
                        match crate::boxes::fold_children(cs.skip(i as int + 1), f) {
                            Ok(rest) => {
                                assert(prev_racc + (seq![raw] + rest) =~= racc + rest);
                            },
                            Err(_) => {},
                        }
                    }
                },
                Err(e) => {
                    return Err(e);
                },
            }
        } else {
            let ghost raw = crate::boxes::RawBox::Span {
                bytes: traf_data@.subrange(b@.offset, b@.offset + b@.size),
            };
            proof {
                assert(f(cs[i as int]) == Ok::<Seq<crate::boxes::RawBox>, Mp4Error>(seq![raw]));
                assert(crate::boxes::wf_child(traf_data@, cs[i as int]));
            }
            push_child_span(&mut output, traf_data, b);
            proof {
                crate::boxes::lemma_serialize_raws_push(prev_racc, raw);
                racc = prev_racc.push(raw);
                match crate::boxes::fold_children(cs.skip(i as int + 1), f) {
                    Ok(rest) => {
                        assert(prev_racc + (seq![raw] + rest) =~= racc + rest);
                    },
                    Err(_) => {},
                }
            }
        }
        i = i + 1;
    }
    proof {
        assert(cs.skip(boxes@.len() as int) =~= Seq::<SpecBox>::empty());
        match crate::boxes::fold_children(cs, f) {
            Ok(raws) => {
                assert(racc + Seq::<crate::boxes::RawBox>::empty() =~= racc);
            },
            Err(_) => {},
        }
    }
    Ok(output)
}


/// The per-child rewrite of a moof box: each traf is rewritten with
/// its track's rebase offset; everything else is copied.
pub open spec fn moof_child_rel_fn(p: Seq<u8>, offs: Seq<u64>) -> spec_fn(SpecBox) -> Result<
    Seq<crate::boxes::RawBox>,
    Mp4Error,
> {
    |c: SpecBox| if c.typ == TRAF as int {
        match spec_reset_traf_rel(c.payload, offs) {
            Err(e) => Err(e),
            Ok(np) => Ok(seq![crate::boxes::RawBox::Boxed { typ: c.typ, payload: np }]),
        }
    } else {
        Ok(seq![crate::boxes::RawBox::Span { bytes: p.subrange(c.offset, c.offset + c.size) }])
    }
}

/// A moof payload with every traf's tfdt rebased.
#[verifier::opaque]
pub open spec fn spec_reset_moof_rel(p: Seq<u8>, offs: Seq<u64>) -> Result<Seq<u8>, Mp4Error> {
    match crate::boxes::spec_parse_boxes(p, 0) {
        Err(e) => Err(e),
        Ok(cs) => match crate::boxes::fold_children(cs, moof_child_rel_fn(p, offs)) {
            Err(e) => Err(e),
            Ok(raws) => Ok(crate::boxes::serialize_raws(raws)),
        },
    }
}

#[verifier::rlimit(100)]
fn reset_moof_timestamps_relative(moof_data: &[u8], first_tfdt_offsets: &[u64]) -> (r: Result<Vec<u8>, Mp4Error>)
    ensures
        match r {
            Ok(out) => spec_reset_moof_rel(moof_data@, first_tfdt_offsets@) == Ok::<Seq<u8>, Mp4Error>(out@),
            Err(e) => spec_reset_moof_rel(moof_data@, first_tfdt_offsets@) == Err::<Seq<u8>, Mp4Error>(e),
        },
{
    proof {
        reveal(spec_reset_moof_rel);
    }
    let boxes = match crate::boxes::parse_container_box(moof_data) {
        Ok(bs) => bs,
        Err(e) => {
            return Err(e);
        },
    };
    let ghost cs = crate::boxes::box_views(boxes@);

    let ghost f = moof_child_rel_fn(moof_data@, first_tfdt_offsets@);
    let mut output: Vec<u8> = Vec::new();
    let ghost mut racc: Seq<crate::boxes::RawBox> = Seq::empty();
    let mut i: usize = 0;
    proof {
        assert(cs.skip(0) =~= cs);
        crate::boxes::lemma_parse_boxes_wf(moof_data@, 0);
        match crate::boxes::fold_children(cs, f) {
            Ok(rest) => {
                assert(racc + rest =~= rest);
            },
            Err(_) => {},
        }
        assert(crate::boxes::serialize_raws(racc) =~= Seq::<u8>::empty());
    }
    while i < boxes.len()
        invariant
            cs == crate::boxes::box_views(boxes@),
            i <= boxes@.len(),
            forall|k: int| 0 <= k < cs.len() ==> #[trigger] crate::boxes::wf_child(
                moof_data@,
                cs[k],
            ),
            f == moof_child_rel_fn(moof_data@, first_tfdt_offsets@),
            output@ == crate::boxes::serialize_raws(racc),
            crate::boxes::fold_children(cs, f) == match crate::boxes::fold_children(
                cs.skip(i as int),
                f,
            ) {
                Ok(rest) => Ok::<Seq<crate::boxes::RawBox>, Mp4Error>(racc + rest),
                Err(e) => Err::<Seq<crate::boxes::RawBox>, Mp4Error>(e),
            },
            spec_reset_moof_rel(moof_data@, first_tfdt_offsets@) == match crate::boxes::fold_children(cs, f) {
                Ok(raws) => Ok::<Seq<u8>, Mp4Error>(crate::boxes::serialize_raws(raws)),
                Err(e) => Err::<Seq<u8>, Mp4Error>(e),
            },
        decreases boxes@.len() - i,
    {
        proof {
            assert(cs.skip(i as int)[0] == cs[i as int]);
            assert(cs.skip(i as int).drop_first() =~= cs.skip(i as int + 1));
        }
        let ghost prev_racc = racc;
        let b = &boxes[i];
        if crate::boxes::box_type_is(b, TRAF) {
            match reset_traf_timestamps_relative(b.data.as_slice(), first_tfdt_offsets) {
                Ok(new_payload) => {
                    let ghost raw = crate::boxes::RawBox::Boxed { typ: b@.typ, payload: new_payload@ };
                    proof {
                        assert(f(cs[i as int]) == Ok::<Seq<crate::boxes::RawBox>, Mp4Error>(
                            seq![raw],
                        ));
                    }
                    crate::boxes::write_box(&mut output, &b.box_type, new_payload.as_slice());
                    proof {
                        crate::boxes::lemma_serialize_raws_push(prev_racc, raw);
                        racc = prev_racc.push(raw);
                        match crate::boxes::fold_children(cs.skip(i as int + 1), f) {
                            Ok(rest) => {
                                assert(prev_racc + (seq![raw] + rest) =~= racc + rest);
                            },
                            Err(_) => {},
                        }
                    }
                },
                Err(e) => {
                    return Err(e);
                },
            }
        } else {
            let ghost raw = crate::boxes::RawBox::Span {
                bytes: moof_data@.subrange(b@.offset, b@.offset + b@.size),
            };
            proof {
                assert(f(cs[i as int]) == Ok::<Seq<crate::boxes::RawBox>, Mp4Error>(seq![raw]));
                assert(crate::boxes::wf_child(moof_data@, cs[i as int]));
            }
            push_child_span(&mut output, moof_data, b);
            proof {
                crate::boxes::lemma_serialize_raws_push(prev_racc, raw);
                racc = prev_racc.push(raw);
                match crate::boxes::fold_children(cs.skip(i as int + 1), f) {
                    Ok(rest) => {
                        assert(prev_racc + (seq![raw] + rest) =~= racc + rest);
                    },
                    Err(_) => {},
                }
            }
        }
        i = i + 1;
    }
    proof {
        assert(cs.skip(boxes@.len() as int) =~= Seq::<SpecBox>::empty());
        match crate::boxes::fold_children(cs, f) {
            Ok(raws) => {
                assert(racc + Seq::<crate::boxes::RawBox>::empty() =~= racc);
            },
            Err(_) => {},
        }
    }
    Ok(output)
}

/// The movie-level duration used on the fragmented path: the first
/// track's computed duration. Taking track zero is a documented
/// simplification (tracks have different timescales, so a simple
/// maximum would not be meaningful either).
pub open spec fn movie_dur(durs: Seq<u64>) -> int {
    if durs.len() > 0 {
        durs[0] as int
    } else {
        0
    }
}

/// The duration assigned to the trak at position `ti`, zero when no
/// duration was computed for it.
pub open spec fn dur_at(durs: Seq<u64>, ti: int) -> int {
    if 0 <= ti < durs.len() {
        durs[ti] as int
    } else {
        0
    }
}

/// Folds the fragmented-path rewrite over moov's children: mvhd takes
/// the movie duration, the k-th trak takes the k-th computed track
/// duration, everything else is copied verbatim as the byte span it
/// occupies in the moov payload `p`.
pub open spec fn spec_fold_moov_dur(p: Seq<u8>, cs: Seq<SpecBox>, durs: Seq<u64>, ti: int) -> Result<
    Seq<crate::boxes::RawBox>,
    Mp4Error,
>
    decreases cs.len(),
{
    if cs.len() == 0 {
        Ok(Seq::empty())
    } else {
        let c = cs[0];
        let head: Result<Seq<crate::boxes::RawBox>, Mp4Error> = if c.typ == MVHD as int {
            match spec_reset_mvhd_dur(c.payload, movie_dur(durs)) {
                Err(e) => Err(e),
                Ok(np) => Ok(seq![crate::boxes::RawBox::Boxed { typ: c.typ, payload: np }]),
            }
        } else if c.typ == TRAK as int {
            match spec_reset_trak_dur(c.payload, dur_at(durs, ti)) {
                Err(e) => Err(e),
                Ok(np) => Ok(seq![crate::boxes::RawBox::Boxed { typ: c.typ, payload: np }]),
            }
        } else {
            Ok(seq![crate::boxes::RawBox::Span { bytes: p.subrange(c.offset, c.offset + c.size) }])
        };
        let ti2: int = if c.typ == TRAK as int {
            ti + 1
        } else {
            ti
        };
        match head {
            Err(e) => Err(e),
            Ok(h) => match spec_fold_moov_dur(p, cs.drop_first(), durs, ti2) {
                Err(e) => Err(e),
                Ok(rest) => Ok(h + rest),
            },
        }
    }
}

/// A moov payload rewritten on the fragmented path.
#[verifier::opaque]
pub open spec fn spec_reset_moov_dur(p: Seq<u8>, durs: Seq<u64>) -> Result<Seq<u8>, Mp4Error> {
    match crate::boxes::spec_parse_boxes(p, 0) {
        Err(e) => Err(e),
        Ok(cs) => match spec_fold_moov_dur(p, cs, durs, 0) {
            Err(e) => Err(e),
            Ok(raws) => Ok(crate::boxes::serialize_raws(raws)),
        },
    }
}

#[verifier::rlimit(100)]
fn reset_moov_timestamps_with_duration(moov_data: &[u8], track_durations: &[u64]) -> (r: Result<
    Vec<u8>,
    Mp4Error,
>)
    ensures
        match r {
            Ok(out) => spec_reset_moov_dur(moov_data@, track_durations@) == Ok::<
                Seq<u8>,
                Mp4Error,
            >(out@),
            Err(e) => spec_reset_moov_dur(moov_data@, track_durations@) == Err::<
                Seq<u8>,
                Mp4Error,
            >(e),
        },
{
    proof {
        reveal(spec_reset_moov_dur);
    }
    let boxes = match crate::boxes::parse_container_box(moov_data) {
        Ok(bs) => bs,
        Err(e) => {
            return Err(e);
        },
    };
    let ghost cs = crate::boxes::box_views(boxes@);
    let ghost durs = track_durations@;
    let movie_duration: u64 = if track_durations.len() > 0 {
        track_durations[0]
    } else {
        0
    };
    let mut output: Vec<u8> = Vec::new();
    let ghost mut racc: Seq<crate::boxes::RawBox> = Seq::empty();
    let mut i: usize = 0;
    let mut ti: usize = 0;
    proof {
        assert(cs.skip(0) =~= cs);
        crate::boxes::lemma_parse_boxes_wf(moov_data@, 0);
        match spec_fold_moov_dur(moov_data@, cs, durs, 0) {
            Ok(rest) => {
                assert(racc + rest =~= rest);
            },
            Err(_) => {},
        }
        assert(crate::boxes::serialize_raws(racc) =~= Seq::<u8>::empty());
    }
    while i < boxes.len()
        invariant
            cs == crate::boxes::box_views(boxes@),
            forall|k: int| 0 <= k < cs.len() ==> #[trigger] crate::boxes::wf_child(
                moov_data@,
                cs[k],
            ),
            durs == track_durations@,
            i <= boxes@.len(),
            ti <= i,
            movie_duration as int == movie_dur(durs),
            output@ == crate::boxes::serialize_raws(racc),
            spec_fold_moov_dur(moov_data@, cs, durs, 0) == match spec_fold_moov_dur(
                moov_data@,
                cs.skip(i as int),
                durs,
                ti as int,
            ) {
                Ok(rest) => Ok::<Seq<crate::boxes::RawBox>, Mp4Error>(racc + rest),
                Err(e) => Err::<Seq<crate::boxes::RawBox>, Mp4Error>(e),
            },
            spec_reset_moov_dur(moov_data@, track_durations@) == match spec_fold_moov_dur(
                moov_data@,
                cs,
                durs,
                0,
            ) {
                Ok(raws) => Ok::<Seq<u8>, Mp4Error>(crate::boxes::serialize_raws(raws)),
                Err(e) => Err::<Seq<u8>, Mp4Error>(e),
            },
        decreases boxes@.len() - i,
    {
        proof {
            assert(cs.skip(i as int)[0] == cs[i as int]);
            assert(cs.skip(i as int).drop_first() =~= cs.skip(i as int + 1));
        }
        let ghost prev_racc = racc;
        let b = &boxes[i];
        if crate::boxes::box_type_is(b, MVHD) {
            match reset_mvhd_with_duration(b.data.as_slice(), movie_duration) {
                Ok(new_payload) => {
                    let ghost raw = crate::boxes::RawBox::Boxed { typ: b@.typ, payload: new_payload@ };
                    crate::boxes::write_box(&mut output, &b.box_type, new_payload.as_slice());
                    proof {
                        crate::boxes::lemma_serialize_raws_push(prev_racc, raw);
                        racc = prev_racc.push(raw);
                        match spec_fold_moov_dur(moov_data@, cs.skip(i as int + 1), durs, ti as int) {
                            Ok(rest) => {
                                assert(prev_racc + (seq![raw] + rest) =~= racc + rest);
                            },
                            Err(_) => {},
                        }
                    }
                },
                Err(e) => {
                    return Err(e);
                },
            }
        } else if crate::boxes::box_type_is(b, TRAK) {
            let trak_duration: u64 = if ti < track_durations.len() {
                track_durations[ti]
            } else {
                0
            };
            match reset_trak_timestamps_with_duration(b.data.as_slice(), trak_duration) {
                Ok(new_payload) => {
                    let ghost raw = crate::boxes::RawBox::Boxed { typ: b@.typ, payload: new_payload@ };
                    crate::boxes::write_box(&mut output, &b.box_type, new_payload.as_slice());
                    proof {
                        crate::boxes::lemma_serialize_raws_push(prev_racc, raw);
                        racc = prev_racc.push(raw);
                        match spec_fold_moov_dur(moov_data@, cs.skip(i as int + 1), durs, ti as int + 1) {
                            Ok(rest) => {
                                assert(prev_racc + (seq![raw] + rest) =~= racc + rest);
                            },
                            Err(_) => {},
                        }
                    }
                },
                Err(e) => {
                    return Err(e);
                },
            }
            ti = ti + 1;
        } else {
            let ghost raw = crate::boxes::RawBox::Span {
                bytes: moov_data@.subrange(b@.offset, b@.offset + b@.size),
            };
            proof {
                assert(crate::boxes::wf_child(moov_data@, cs[i as int]));
            }
            push_child_span(&mut output, moov_data, b);
            proof {
                crate::boxes::lemma_serialize_raws_push(prev_racc, raw);
                racc = prev_racc.push(raw);
                match spec_fold_moov_dur(moov_data@, cs.skip(i as int + 1), durs, ti as int) {
                    Ok(rest) => {
                        assert(prev_racc + (seq![raw] + rest) =~= racc + rest);
                    },
                    Err(_) => {},
                }
            }
        }
        i = i + 1;
    }
    proof {
        assert(cs.skip(boxes@.len() as int) =~= Seq::<SpecBox>::empty());
        match spec_fold_moov_dur(moov_data@, cs, durs, 0) {
            Ok(raws) => {
                assert(racc + Seq::<crate::boxes::RawBox>::empty() =~= racc);
            },
            Err(_) => {},
        }
    }
    Ok(output)
}

/// `acc` padded with empty slots up to length `n`.
pub open spec fn spec_extend_slots(acc: Seq<Option<u64>>, n: int) -> Seq<Option<u64>> {
    if acc.len() >= n {
        acc
    } else {
        acc + Seq::new((n - acc.len()) as nat, |_i: int| None::<u64>)
    }
}

/// Records a traf's first tfdt value into the per-track slot table:
/// the table grows to cover the traf's track index, and the slot is
/// filled only if it was still empty.
#[verifier::opaque]
pub open spec fn spec_traf_tfdt_step(tp: Seq<u8>, acc: Seq<Option<u64>>) -> Result<
    Seq<Option<u64>>,
    Mp4Error,
> {
    match crate::boxes::spec_parse_boxes(tp, 0) {
        Err(e) => Err(e),
        Ok(tcs) => {
            let idx = spec_traf_track_index(tcs);
            let acc1 = spec_extend_slots(acc, idx + 1);
            if acc1[idx] is None {
                match crate::boxes::first_box(tcs, TFDT as int) {
                    None => Ok(acc1),
                    Some(t) => Ok(acc1.update(idx, Some(spec_tfdt_value(t.payload) as u64))),
                }
            } else {
                Ok(acc1)
            }
        },
    }
}

/// Folds [`spec_traf_tfdt_step`] over a moof's traf children.
pub open spec fn spec_moof_children_tfdt(cs: Seq<SpecBox>, acc: Seq<Option<u64>>) -> Result<
    Seq<Option<u64>>,
    Mp4Error,
>
    decreases cs.len(),
{
    if cs.len() == 0 {
        Ok(acc)
    } else {
        let step: Result<Seq<Option<u64>>, Mp4Error> = if cs[0].typ == TRAF as int {
            spec_traf_tfdt_step(cs[0].payload, acc)
        } else {
            Ok(acc)
        };
        match step {
            Err(e) => Err(e),
            Ok(acc1) => spec_moof_children_tfdt(cs.drop_first(), acc1),
        }
    }
}

/// Applies one moof's trafs to the slot table.
#[verifier::opaque]
pub open spec fn spec_moof_tfdt_step(p: Seq<u8>, acc: Seq<Option<u64>>) -> Result<
    Seq<Option<u64>>,
    Mp4Error,
> {
    match crate::boxes::spec_parse_boxes(p, 0) {
        Err(e) => Err(e),
        Ok(cs) => spec_moof_children_tfdt(cs, acc),
    }
}

/// Folds the slot table over every moof among the top-level entries.
pub open spec fn spec_top_tfdt_fold(es: Seq<SpecBoxInfo>, acc: Seq<Option<u64>>) -> Result<
    Seq<Option<u64>>,
    Mp4Error,
>
    decreases es.len(),
{
    if es.len() == 0 {
        Ok(acc)
    } else {
        let step: Result<Seq<Option<u64>>, Mp4Error> = match es[0] {
            SpecBoxInfo::Small(b) => if b.typ == MOOF as int {
                spec_moof_tfdt_step(b.payload, acc)
            } else {
                Ok(acc)
            },
            SpecBoxInfo::Mdat(_) => Ok(acc),
        };
        match step {
            Err(e) => Err(e),
            Ok(acc1) => spec_top_tfdt_fold(es.drop_first(), acc1),
        }
    }
}

/// Each track's rebase offset: the first tfdt value seen for that
/// track in file order, zero for a track that never shows a tfdt.
pub open spec fn spec_first_tfdts(es: Seq<SpecBoxInfo>) -> Result<Seq<u64>, Mp4Error> {
    match spec_top_tfdt_fold(es, Seq::empty()) {
        Err(e) => Err(e),
        Ok(acc) => Ok(acc.map_values(|o: Option<u64>| match o {
            Some(v) => v,
            None => 0u64,
        })),
    }
}

/// Grows the slot table to cover index `n - 1`.
fn extend_slots(acc: &mut Vec<Option<u64>>, n: usize)
    ensures
        final(acc)@ == spec_extend_slots(old(acc)@, n as int),
        final(acc)@.len() >= n,
{
    let ghost orig = acc@;
    while acc.len() < n
        invariant
            orig.len() >= n ==> acc@ == orig,
            orig.len() < n ==> {
                &&& acc@.len() >= orig.len()
                &&& acc@.len() <= n
                &&& acc@ == orig + Seq::new((acc@.len() - orig.len()) as nat, |_i: int| None::<u64>)
            },
        decreases n - acc@.len(),
    {
        acc.push(None);
        proof {
            assert(acc@ =~= orig + Seq::new((acc@.len() - orig.len()) as nat, |_i: int| None::<u64>));
        }
    }
    proof {
        if orig.len() < n {
            assert(acc@.len() == n);
            assert(acc@ =~= spec_extend_slots(orig, n as int));
        } else {
            assert(acc@ =~= spec_extend_slots(orig, n as int));
        }
    }
}

/// Applies one traf to the slot table, as [`spec_traf_tfdt_step`]
/// describes.
fn traf_tfdt_step(traf: &Mp4Box, acc: &mut Vec<Option<u64>>) -> (r: Result<(), Mp4Error>)
    ensures
        match r {
            Ok(()) => spec_traf_tfdt_step(traf@.payload, old(acc)@) == Ok::<
                Seq<Option<u64>>,
                Mp4Error,
            >(final(acc)@),
            Err(e) => spec_traf_tfdt_step(traf@.payload, old(acc)@) == Err::<
                Seq<Option<u64>>,
                Mp4Error,
            >(e),
        },
{
    proof {
        reveal(spec_traf_tfdt_step);
    }
    let tcs = match crate::boxes::parse_container_box(traf.data.as_slice()) {
        Ok(bs) => bs,
        Err(e) => {
            return Err(e);
        },
    };
    let idx = traf_track_index(tcs.as_slice());
    proof {
        assert(spec_traf_track_index(crate::boxes::box_views(tcs@)) < 0x100000000);
    }
    extend_slots(acc, idx + 1);
    if acc[idx].is_none() {
        let tfdt_tag: [u8; 4] = [0x74, 0x66, 0x64, 0x74];
        proof {
            assert(be32(tfdt_tag@, 0) == TFDT as int);
        }
        match crate::boxes::find_box(tcs.as_slice(), &tfdt_tag) {
            None => {},
            Some(t) => {
                let v = crate::codecs::read_tfdt_value(t.data.as_slice());
                acc.set(idx, Some(v));
            },
        }
    }
    Ok(())
}

/// Applies one moof's trafs to the slot table, as
/// [`spec_moof_tfdt_step`] describes.
fn moof_tfdt_step(moof: &Mp4Box, acc: &mut Vec<Option<u64>>) -> (r: Result<(), Mp4Error>)
    ensures
        match r {
            Ok(()) => spec_moof_tfdt_step(moof@.payload, old(acc)@) == Ok::<
                Seq<Option<u64>>,
                Mp4Error,
            >(final(acc)@),
            Err(e) => spec_moof_tfdt_step(moof@.payload, old(acc)@) == Err::<
                Seq<Option<u64>>,
                Mp4Error,
            >(e),
        },
{
    proof {
        reveal(spec_moof_tfdt_step);
    }
    let cs = match crate::boxes::parse_container_box(moof.data.as_slice()) {
        Ok(bs) => bs,
        Err(e) => {
            return Err(e);
        },
    };
    let ghost csv = crate::boxes::box_views(cs@);
    let mut j: usize = 0;
    proof {
        assert(csv.skip(0) =~= csv);
    }
    while j < cs.len()
        invariant
            csv == crate::boxes::box_views(cs@),
            j <= cs@.len(),
            spec_moof_tfdt_step(moof@.payload, old(acc)@) == spec_moof_children_tfdt(
                csv,
                old(acc)@,
            ),
            spec_moof_children_tfdt(csv, old(acc)@) == spec_moof_children_tfdt(
                csv.skip(j as int),
                acc@,
            ),
        decreases cs@.len() - j,
    {
        proof {
            assert(csv.skip(j as int)[0] == csv[j as int]);
            assert(csv.skip(j as int).drop_first() =~= csv.skip(j as int + 1));
        }
        let b = &cs[j];
        if crate::boxes::box_type_is(b, TRAF) {
            match traf_tfdt_step(b, acc) {
                Ok(()) => {},
                Err(e) => {
                    return Err(e);
                },
            }
        }
        j = j + 1;
    }
    proof {
        assert(csv.skip(cs@.len() as int) =~= Seq::<SpecBox>::empty());
    }
    Ok(())
}

/// Walks every moof in file order and records, per track, the first
/// tfdt value encountered: that value becomes the track's rebase
/// offset, exactly as [`spec_first_tfdts`] describes.
fn extract_first_tfdt_values(boxes: &[BoxInfo]) -> (r: Result<Vec<u64>, Mp4Error>)
    ensures
        match r {
            Ok(v) => spec_first_tfdts(crate::boxes::info_views(boxes@)) == Ok::<
                Seq<u64>,
                Mp4Error,
            >(v@),
            Err(e) => spec_first_tfdts(crate::boxes::info_views(boxes@)) == Err::<
                Seq<u64>,
                Mp4Error,
            >(e),
        },
{
    let ghost es = crate::boxes::info_views(boxes@);
    let mut acc: Vec<Option<u64>> = Vec::new();
    let mut i: usize = 0;
    proof {
        assert(es.skip(0) =~= es);
        assert(acc@ =~= Seq::<Option<u64>>::empty());
    }
    while i < boxes.len()
        invariant
            es == crate::boxes::info_views(boxes@),
            i <= boxes@.len(),
            spec_top_tfdt_fold(es, Seq::empty()) == spec_top_tfdt_fold(es.skip(i as int), acc@),
        decreases boxes@.len() - i,
    {
        proof {
            assert(es.skip(i as int)[0] == es[i as int]);
            assert(es.skip(i as int).drop_first() =~= es.skip(i as int + 1));
        }
        match &boxes[i] {
            BoxInfo::Small(b) => {
                if crate::boxes::box_type_is(b, MOOF) {
                    match moof_tfdt_step(b, &mut acc) {
                        Ok(()) => {},
                        Err(e) => {
                            return Err(e);
                        },
                    }
                }
            },
            BoxInfo::Mdat(_) => {},
        }
        i = i + 1;
    }
    proof {
        assert(es.skip(boxes@.len() as int) =~= Seq::<SpecBoxInfo>::empty());
    }

    let mut out: Vec<u64> = Vec::new();
    let mut k: usize = 0;
    while k < acc.len()
        invariant
            k <= acc@.len(),
            out@.len() == k,
            forall|j: int| 0 <= j < k ==> #[trigger] out@[j] == (match acc@[j] {
                Some(v) => v,
                None => 0u64,
            }),
        decreases acc@.len() - k,
    {
        match acc[k] {
            Some(v) => out.push(v),
            None => out.push(0),
        }
        k = k + 1;
    }
    proof {
        assert(out@ =~= acc@.map_values(|o: Option<u64>| match o {
            Some(v) => v,
            None => 0u64,
        }));
    }
    Ok(out)
}

/// Running state of the duration walk: per track, the rebased start
/// time of the last fragment seen, the last nonzero fragment duration,
/// and the previous fragment's rebased start time.
pub struct DurState {
    pub max: Seq<u64>,
    pub last: Seq<u64>,
    pub prev: Seq<Option<u64>>,
}

/// Applies one traf to the duration state: the fragment's rebased
/// start time comes from its tfdt, its duration from the trun sample
/// durations when present, otherwise from the delta to the previous
/// fragment's start time.
#[verifier::opaque]
pub open spec fn spec_traf_dur_step(tp: Seq<u8>, offs: Seq<u64>, st: DurState) -> Result<
    DurState,
    Mp4Error,
> {
    match crate::boxes::spec_parse_boxes(tp, 0) {
        Err(e) => Err(e),
        Ok(tcs) => {
            let idx = spec_traf_track_index(tcs);
            if idx >= st.max.len() {
                Ok(st)
            } else {
                let cur: int = match crate::boxes::first_box(tcs, TFDT as int) {
                    None => 0,
                    Some(t) => sat_sub(
                        spec_tfdt_value(t.payload),
                        if idx < offs.len() {
                            offs[idx] as int
                        } else {
                            0
                        },
                    ),
                };
                let fd0: int = match crate::boxes::first_box(tcs, TRUN as int) {
                    None => 0,
                    Some(t) => crate::codecs::spec_trun_duration(t.payload),
                };
                let fd: int = if fd0 == 0 {
                    match st.prev[idx] {
                        Some(pv) => sat_sub(cur, pv as int),
                        None => 0,
                    }
                } else {
                    fd0
                };
                Ok(DurState {
                    max: st.max.update(idx, cur as u64),
                    last: if fd > 0 {
                        st.last.update(idx, fd as u64)
                    } else {
                        st.last
                    },
                    prev: st.prev.update(idx, Some(cur as u64)),
                })
            }
        },
    }
}

/// Folds [`spec_traf_dur_step`] over a moof's traf children.
pub open spec fn spec_moof_children_dur(cs: Seq<SpecBox>, offs: Seq<u64>, st: DurState) -> Result<
    DurState,
    Mp4Error,
>
    decreases cs.len(),
{
    if cs.len() == 0 {
        Ok(st)
    } else {
        let step: Result<DurState, Mp4Error> = if cs[0].typ == TRAF as int {
            spec_traf_dur_step(cs[0].payload, offs, st)
        } else {
            Ok(st)
        };
        match step {
            Err(e) => Err(e),
            Ok(st1) => spec_moof_children_dur(cs.drop_first(), offs, st1),
        }
    }
}

/// Applies one moof's trafs to the duration state.
#[verifier::opaque]
pub open spec fn spec_moof_dur_step(p: Seq<u8>, offs: Seq<u64>, st: DurState) -> Result<
    DurState,
    Mp4Error,
> {
    match crate::boxes::spec_parse_boxes(p, 0) {
        Err(e) => Err(e),
        Ok(cs) => spec_moof_children_dur(cs, offs, st),
    }
}

/// Folds the duration state over every moof among the top-level
/// entries.
pub open spec fn spec_top_dur_fold(es: Seq<SpecBoxInfo>, offs: Seq<u64>, st: DurState) -> Result<
    DurState,
    Mp4Error,
>
    decreases es.len(),
{
    if es.len() == 0 {
        Ok(st)
    } else {
        let step: Result<DurState, Mp4Error> = match es[0] {
            SpecBoxInfo::Small(b) => if b.typ == MOOF as int {
                spec_moof_dur_step(b.payload, offs, st)
            } else {
                Ok(st)
            },
            SpecBoxInfo::Mdat(_) => Ok(st),
        };
        match step {
            Err(e) => Err(e),
            Ok(st1) => spec_top_dur_fold(es.drop_first(), offs, st1),
        }
    }
}

/// The initial duration state: one zeroed slot per track.
pub open spec fn spec_dur_init(n: int) -> DurState {
    DurState {
        max: Seq::new(n as nat, |_i: int| 0u64),
        last: Seq::new(n as nat, |_i: int| 0u64),
        prev: Seq::new(n as nat, |_i: int| None::<u64>),
    }
}

/// Each track's total duration: the last fragment's rebased start time
/// plus that fragment's duration (the final fragment reuses the
/// previous fragment duration, saturating on overflow).
pub open spec fn spec_frag_durations(es: Seq<SpecBoxInfo>, offs: Seq<u64>) -> Result<
    Seq<u64>,
    Mp4Error,
> {
    match spec_top_dur_fold(es, offs, spec_dur_init(offs.len() as int)) {
        Err(e) => Err(e),
        Ok(st) => Ok(
            Seq::new(
                st.max.len(),
                |i: int| if st.last[i] > 0 {
                    sat_add64(st.max[i] as int, st.last[i] as int) as u64
                } else {
                    st.max[i]
                },
            ),
        ),
    }
}

/// Applies one traf to the duration state, as [`spec_traf_dur_step`]
/// describes.
fn traf_dur_step(
    traf: &Mp4Box,
    offs: &[u64],
    max: &mut Vec<u64>,
    last: &mut Vec<u64>,
    prev: &mut Vec<Option<u64>>,
) -> (r: Result<(), Mp4Error>)
    requires
        old(max)@.len() == old(last)@.len(),
        old(max)@.len() == old(prev)@.len(),
    ensures
        match r {
            Ok(()) => spec_traf_dur_step(
                traf@.payload,
                offs@,
                DurState { max: old(max)@, last: old(last)@, prev: old(prev)@ },
            ) == Ok::<DurState, Mp4Error>(
                DurState { max: final(max)@, last: final(last)@, prev: final(prev)@ },
            ),
            Err(e) => spec_traf_dur_step(
                traf@.payload,
                offs@,
                DurState { max: old(max)@, last: old(last)@, prev: old(prev)@ },
            ) == Err::<DurState, Mp4Error>(e),
        },
        final(max)@.len() == old(max)@.len(),
        final(last)@.len() == old(last)@.len(),
        final(prev)@.len() == old(prev)@.len(),
{
    proof {
        reveal(spec_traf_dur_step);
    }
    let tcs = match crate::boxes::parse_container_box(traf.data.as_slice()) {
        Ok(bs) => bs,
        Err(e) => {
            return Err(e);
        },
    };
    let idx = traf_track_index(tcs.as_slice());
    if idx >= max.len() {
        return Ok(());
    }

    let tfdt_tag: [u8; 4] = [0x74, 0x66, 0x64, 0x74];
    let trun_tag: [u8; 4] = [0x74, 0x72, 0x75, 0x6e];
    proof {
        assert(be32(tfdt_tag@, 0) == TFDT as int);
        assert(be32(trun_tag@, 0) == TRUN as int);
    }

    let cur: u64 = match crate::boxes::find_box(tcs.as_slice(), &tfdt_tag) {
        None => 0,
        Some(t) => {
            let raw = crate::codecs::read_tfdt_value(t.data.as_slice());
            let off: u64 = if idx < offs.len() {
                offs[idx]
            } else {
                0
            };
            if raw >= off {
                raw - off
            } else {
                0
            }
        },
    };

    let fd0: u64 = match crate::boxes::find_box(tcs.as_slice(), &trun_tag) {
        None => 0,
        Some(t) => crate::codecs::calculate_trun_duration(t.data.as_slice()),
    };
    let fd: u64 = if fd0 == 0 {
        match prev[idx] {
            Some(pv) => if cur >= pv {
                cur - pv
            } else {
                0
            },
            None => 0,
        }
    } else {
        fd0
    };

    max.set(idx, cur);
    if fd > 0 {
        last.set(idx, fd);
    }
    prev.set(idx, Some(cur));
    Ok(())
}

/// Applies one moof's trafs to the duration state, as
/// [`spec_moof_dur_step`] describes.
fn moof_dur_step(
    moof: &Mp4Box,
    offs: &[u64],
    max: &mut Vec<u64>,
    last: &mut Vec<u64>,
    prev: &mut Vec<Option<u64>>,
) -> (r: Result<(), Mp4Error>)
    requires
        old(max)@.len() == old(last)@.len(),
        old(max)@.len() == old(prev)@.len(),
    ensures
        match r {
            Ok(()) => spec_moof_dur_step(
                moof@.payload,
                offs@,
                DurState { max: old(max)@, last: old(last)@, prev: old(prev)@ },
            ) == Ok::<DurState, Mp4Error>(
                DurState { max: final(max)@, last: final(last)@, prev: final(prev)@ },
            ),
            Err(e) => spec_moof_dur_step(
                moof@.payload,
                offs@,
                DurState { max: old(max)@, last: old(last)@, prev: old(prev)@ },
            ) == Err::<DurState, Mp4Error>(e),
        },
        final(max)@.len() == old(max)@.len(),
        final(last)@.len() == old(last)@.len(),
        final(prev)@.len() == old(prev)@.len(),
{
    proof {
        reveal(spec_moof_dur_step);
    }
    let cs = match crate::boxes::parse_container_box(moof.data.as_slice()) {
        Ok(bs) => bs,
        Err(e) => {
            return Err(e);
        },
    };
    let ghost csv = crate::boxes::box_views(cs@);
    let ghost st0 = DurState { max: old(max)@, last: old(last)@, prev: old(prev)@ };
    let mut j: usize = 0;
    proof {
        assert(csv.skip(0) =~= csv);
    }
    while j < cs.len()
        invariant
            csv == crate::boxes::box_views(cs@),
            j <= cs@.len(),
            st0 == (DurState { max: old(max)@, last: old(last)@, prev: old(prev)@ }),
            max@.len() == st0.max.len(),
            last@.len() == st0.last.len(),
            prev@.len() == st0.prev.len(),
            st0.max.len() == st0.last.len(),
            st0.max.len() == st0.prev.len(),
            spec_moof_dur_step(moof@.payload, offs@, st0) == spec_moof_children_dur(
                csv,
                offs@,
                st0,
            ),
            spec_moof_children_dur(csv, offs@, st0) == spec_moof_children_dur(
                csv.skip(j as int),
                offs@,
                DurState { max: max@, last: last@, prev: prev@ },
            ),
        decreases cs@.len() - j,
    {
        proof {
            assert(csv.skip(j as int)[0] == csv[j as int]);
            assert(csv.skip(j as int).drop_first() =~= csv.skip(j as int + 1));
        }
        let b = &cs[j];
        if crate::boxes::box_type_is(b, TRAF) {
            match traf_dur_step(b, offs, max, last, prev) {
                Ok(()) => {},
                Err(e) => {
                    return Err(e);
                },
            }
        }
        j = j + 1;
    }
    proof {
        assert(csv.skip(cs@.len() as int) =~= Seq::<SpecBox>::empty());
    }
    Ok(())
}

/// Computes each track's total duration from its fragments, exactly as
/// [`spec_frag_durations`] describes.
fn calculate_fragment_durations(boxes: &[BoxInfo], first_tfdt_offsets: &[u64]) -> (r: Result<
    Vec<u64>,
    Mp4Error,
>)
    ensures
        match r {
            Ok(v) => spec_frag_durations(crate::boxes::info_views(boxes@), first_tfdt_offsets@)
                == Ok::<Seq<u64>, Mp4Error>(v@),
            Err(e) => spec_frag_durations(crate::boxes::info_views(boxes@), first_tfdt_offsets@)
                == Err::<Seq<u64>, Mp4Error>(e),
        },
{
    let ghost es = crate::boxes::info_views(boxes@);
    let ghost offs = first_tfdt_offsets@;
    let n = first_tfdt_offsets.len();

    let mut max: Vec<u64> = Vec::new();
    let mut last: Vec<u64> = Vec::new();
    let mut prev: Vec<Option<u64>> = Vec::new();
    let mut k: usize = 0;
    while k < n
        invariant
            k <= n,
            max@.len() == k,
            last@.len() == k,
            prev@.len() == k,
            forall|j: int| 0 <= j < k ==> #[trigger] max@[j] == 0u64,
            forall|j: int| 0 <= j < k ==> #[trigger] last@[j] == 0u64,
            forall|j: int| 0 <= j < k ==> #[trigger] prev@[j] == None::<u64>,
        decreases n - k,
    {
        max.push(0);
        last.push(0);
        prev.push(None);
        k = k + 1;
    }
    proof {
        assert(max@ =~= spec_dur_init(n as int).max);
        assert(last@ =~= spec_dur_init(n as int).last);
        assert(prev@ =~= spec_dur_init(n as int).prev);
    }

    let ghost st0 = spec_dur_init(n as int);
    let mut i: usize = 0;
    proof {
        assert(es.skip(0) =~= es);
    }
    while i < boxes.len()
        invariant
            es == crate::boxes::info_views(boxes@),
            offs == first_tfdt_offsets@,
            i <= boxes@.len(),
            st0 == spec_dur_init(offs.len() as int),
            max@.len() == st0.max.len(),
            last@.len() == st0.last.len(),
            prev@.len() == st0.prev.len(),
            st0.max.len() == st0.last.len(),
            st0.max.len() == st0.prev.len(),
            spec_top_dur_fold(es, offs, st0) == spec_top_dur_fold(
                es.skip(i as int),
                offs,
                DurState { max: max@, last: last@, prev: prev@ },
            ),
        decreases boxes@.len() - i,
    {
        proof {
            assert(es.skip(i as int)[0] == es[i as int]);
            assert(es.skip(i as int).drop_first() =~= es.skip(i as int + 1));
        }
        match &boxes[i] {
            BoxInfo::Small(b) => {
                if crate::boxes::box_type_is(b, MOOF) {
                    match moof_dur_step(b, first_tfdt_offsets, &mut max, &mut last, &mut prev) {
                        Ok(()) => {},
                        Err(e) => {
                            return Err(e);
                        },
                    }
                }
            },
            BoxInfo::Mdat(_) => {},
        }
        i = i + 1;
    }
    proof {
        assert(es.skip(boxes@.len() as int) =~= Seq::<SpecBoxInfo>::empty());
    }

    let mut out: Vec<u64> = Vec::new();
    let mut j: usize = 0;
    while j < max.len()
        invariant
            j <= max@.len(),
            max@.len() == last@.len(),
            out@.len() == j,
            forall|t: int| 0 <= t < j ==> #[trigger] out@[t] == (if last@[t] > 0 {
                sat_add64(max@[t] as int, last@[t] as int) as u64
            } else {
                max@[t]
            }),
        decreases max@.len() - j,
    {
        let m = max[j];
        let l = last[j];
        if l > 0 {
            if m <= u64::MAX - l {
                out.push(m + l);
            } else {
                out.push(u64::MAX);
            }
        } else {
            out.push(m);
        }
        j = j + 1;
    }
    proof {
        match spec_top_dur_fold(es, offs, st0) {
            Ok(st) => {
                assert(out@ =~= Seq::new(
                    st.max.len(),
                    |t: int| if st.last[t] > 0 {
                        sat_add64(st.max[t] as int, st.last[t] as int) as u64
                    } else {
                        st.max[t]
                    },
                ));
            },
            Err(_) => {},
        }
    }
    Ok(out)
}

/// Serializes the rewritten file: the first moov is replaced by the
/// rebuilt one (later moovs are dropped), every moof is rewritten with
/// the rebase offsets, and every other box — mdat included — is
/// copied byte-for-byte from the source buffer as the span it
/// occupies there, so untouched boxes keep their exact original
/// bytes, extended or to-end size headers included, and the file's
/// top-level order is preserved.
#[verifier::opaque]
pub open spec fn spec_emit_head(
    e: SpecBoxInfo,
    s: Seq<u8>,
    new_moov: Seq<u8>,
    offs: Seq<u64>,
    moov_written: bool,
) -> (Result<Seq<u8>, Mp4Error>, bool) {
    match e {
        SpecBoxInfo::Small(b) => if b.typ == MOOV as int {
            if moov_written {
                (Ok(Seq::empty()), true)
            } else {
                (Ok(crate::boxes::serialize_box(MOOV as int, new_moov)), true)
            }
        } else if b.typ == MOOF as int {
            (
                match spec_reset_moof_rel(b.payload, offs) {
                    Err(e) => Err(e),
                    Ok(nm) => Ok(crate::boxes::serialize_box(MOOF as int, nm)),
                },
                moov_written,
            )
        } else {
            (Ok(s.subrange(b.offset, b.offset + b.size)), moov_written)
        },
        SpecBoxInfo::Mdat(m) => (
            Ok(s.subrange(m.offset, m.offset + m.size)),
            moov_written,
        ),
    }
}

pub open spec fn spec_emit(
    es: Seq<SpecBoxInfo>,
    s: Seq<u8>,
    new_moov: Seq<u8>,
    offs: Seq<u64>,
    moov_written: bool,
) -> Result<Seq<u8>, Mp4Error>
    decreases es.len(),
{
    if es.len() == 0 {
        Ok(Seq::empty())
    } else {
        let (head, mw2) = spec_emit_head(es[0], s, new_moov, offs, moov_written);
        match head {
            Err(e) => Err(e),
            Ok(h) => match spec_emit(es.drop_first(), s, new_moov, offs, mw2) {
                Err(e) => Err(e),
                Ok(rest) => Ok(h + rest),
            },
        }
    }
}

/// The whole timestamp reset, as a function on the file's bytes.
///
/// A fragmented file (one with a moof) gets every track's tfdt rebased
/// to start at zero and its moov durations recomputed from the
/// fragments; a flat file gets creation/modification times zeroed and
/// edit lists dropped. A file without a moov cannot be reset.
#[verifier::opaque]
pub open spec fn spec_reset_file(s: Seq<u8>) -> Result<Seq<u8>, Mp4Error> {
    match crate::boxes::spec_parse_top(s, 0) {
        Err(e) => Err(e),
        Ok(es) => {
            if crate::boxes::first_small(es, MOOF as int) is Some {
                match spec_first_tfdts(es) {
                    Err(e) => Err(e),
                    Ok(offs) => match spec_frag_durations(es, offs) {
                        Err(e) => Err(e),
                        Ok(durs) => match crate::boxes::first_small(es, MOOV as int) {
                            None => Err(Mp4Error::MissingRequiredBox),
                            Some(moov) => match spec_reset_moov_dur(moov.payload, durs) {
                                Err(e) => Err(e),
                                Ok(nm) => spec_emit(es, s, nm, offs, false),
                            },
                        },
                    },
                }
            } else {
                match crate::boxes::first_small(es, MOOV as int) {
                    None => Err(Mp4Error::MissingRequiredBox),
                    Some(moov) => match spec_reset_moov_flat(moov.payload) {
                        Err(e) => Err(e),
                        Ok(nm) => spec_emit(es, s, nm, Seq::empty(), false),
                    },
                }
            }
        },
    }
}

/// True when a moof box sits among the top-level entries.
pub(crate) fn has_moof(boxes: &[BoxInfo]) -> (r: bool)
    ensures
        r == (crate::boxes::first_small(crate::boxes::info_views(boxes@), MOOF as int) is Some),
{
    let ghost es = crate::boxes::info_views(boxes@);
    let mut i: usize = 0;
    proof {
        assert(es.skip(0) =~= es);
    }
    while i < boxes.len()
        invariant
            es == crate::boxes::info_views(boxes@),
            i <= boxes@.len(),
            crate::boxes::first_small(es, MOOF as int) == crate::boxes::first_small(
                es.skip(i as int),
                MOOF as int,
            ),
        decreases boxes@.len() - i,
    {
        proof {
            assert(es.skip(i as int)[0] == es[i as int]);
            assert(es.skip(i as int).drop_first() =~= es.skip(i as int + 1));
        }
        match &boxes[i] {
            BoxInfo::Small(b) => {
                if crate::boxes::box_type_is(b, MOOF) {
                    return true;
                }
            },
            BoxInfo::Mdat(_) => {},
        }
        i = i + 1;
    }
    proof {
        assert(es.skip(boxes@.len() as int) =~= Seq::<SpecBoxInfo>::empty());
    }
    false
}

/// Resets an MP4's timestamps so playback starts at zero, exactly as
/// [`spec_reset_file`] describes: creation/modification times become
/// zero everywhere; a fragmented input additionally has every track's
/// decode times rebased against its first tfdt and its durations
/// recomputed, while a flat input loses its edit lists.
#[verifier::rlimit(100)]
pub fn reset_mp4_timestamps(data: &[u8]) -> (r: Result<Vec<u8>, Mp4Error>)
    ensures
        match r {
            Ok(out) => spec_reset_file(data@) == Ok::<Seq<u8>, Mp4Error>(out@),
            Err(e) => spec_reset_file(data@) == Err::<Seq<u8>, Mp4Error>(e),
        },
{
    proof {
        reveal(spec_reset_file);
    }
    let mp4 = match crate::boxes::parse_mp4(data) {
        Ok(f) => f,
        Err(e) => {
            return Err(e);
        },
    };
    let ghost es = crate::boxes::info_views(mp4.all_boxes_in_order@);

    let fragmented = has_moof(mp4.all_boxes_in_order.as_slice());

    let offsets: Vec<u64> = if fragmented {
        match extract_first_tfdt_values(mp4.all_boxes_in_order.as_slice()) {
            Ok(v) => v,
            Err(e) => {
                return Err(e);
            },
        }
    } else {
        Vec::new()
    };

    let durations: Vec<u64> = if fragmented {
        match calculate_fragment_durations(mp4.all_boxes_in_order.as_slice(), offsets.as_slice()) {
            Ok(v) => v,
            Err(e) => {
                return Err(e);
            },
        }
    } else {
        Vec::new()
    };

    let moov = match &mp4.moov {
        None => {
            return Err(Mp4Error::MissingRequiredBox);
        },
        Some(m) => m,
    };

    let new_moov: Vec<u8> = if fragmented {
        match reset_moov_timestamps_with_duration(moov.data.as_slice(), durations.as_slice()) {
            Ok(v) => v,
            Err(e) => {
                return Err(e);
            },
        }
    } else {
        match reset_moov_timestamps(moov.data.as_slice()) {
            Ok(v) => v,
            Err(e) => {
                return Err(e);
            },
        }
    };
    proof {
        if !fragmented {
            assert(offsets@ =~= Seq::<u64>::empty());
        }
    }

    proof {
        crate::boxes::lemma_parse_top_wf(data@, 0);
    }

    let r = emit_reset(
        data,
        mp4.all_boxes_in_order.as_slice(),
        new_moov.as_slice(),
        offsets.as_slice(),
    );
    proof {
        match r {
            Ok(ref out) => {
                assert(spec_reset_file(data@) == Ok::<Seq<u8>, Mp4Error>(out@));
            },
            Err(e) => {
                assert(spec_reset_file(data@) == Err::<Seq<u8>, Mp4Error>(e));
            },
        }
    }
    r
}

/// Emits one top-level entry, as [`spec_emit_head`] describes,
/// returning the new first-moov flag.
#[verifier::rlimit(100)]
fn emit_entry(
    output: &mut Vec<u8>,
    data: &[u8],
    e: &BoxInfo,
    new_moov: &[u8],
    offsets: &[u64],
    moov_written: bool,
) -> (r: Result<bool, Mp4Error>)
    requires
        crate::boxes::wf_top_entry(data@, e@),
    ensures
        match r {
            Ok(mw2) => {
                &&& final(output)@.len() >= old(output)@.len()
                &&& final(output)@.subrange(0, old(output)@.len() as int) == old(output)@
                &&& spec_emit_head(e@, data@, new_moov@, offsets@, moov_written) == (
                    Ok::<Seq<u8>, Mp4Error>(final(output)@.skip(old(output)@.len() as int)),
                    mw2,
                )
            },
            Err(err) => spec_emit_head(e@, data@, new_moov@, offsets@, moov_written).0 == Err::<
                Seq<u8>,
                Mp4Error,
            >(err),
        },
{
    proof {
        reveal(spec_emit_head);
    }
    match e {
        BoxInfo::Small(b) => {
            if crate::boxes::box_type_is(b, MOOV) {
                if moov_written {
                    proof {
                        assert(output@.subrange(0, output@.len() as int) =~= output@);
                        assert(output@.skip(output@.len() as int) =~= Seq::<u8>::empty());
                    }
                    Ok(true)
                } else {
                    let moov_tag: [u8; 4] = [0x6d, 0x6f, 0x6f, 0x76];
                    proof {
                        assert(be32(moov_tag@, 0) == MOOV as int);
                    }
                    crate::boxes::write_box(output, &moov_tag, new_moov);
                    proof {
                        assert(output@.subrange(0, old(output)@.len() as int) =~= old(output)@);
                        assert(output@.skip(old(output)@.len() as int)
                            =~= crate::boxes::serialize_box(MOOV as int, new_moov@));
                    }
                    Ok(true)
                }
            } else if crate::boxes::box_type_is(b, MOOF) {
                match reset_moof_timestamps_relative(b.data.as_slice(), offsets) {
                    Ok(nm) => {
                        crate::boxes::write_box(output, &b.box_type, nm.as_slice());
                        proof {
                            assert(output@.subrange(0, old(output)@.len() as int)
                                =~= old(output)@);
                            assert(output@.skip(old(output)@.len() as int)
                                =~= crate::boxes::serialize_box(MOOF as int, nm@));
                        }
                        Ok(moov_written)
                    },
                    Err(err) => Err(err),
                }
            } else {
                push_child_span(output, data, b);
                proof {
                    assert(output@.subrange(0, old(output)@.len() as int) =~= old(output)@);
                    assert(output@.skip(old(output)@.len() as int) =~= data@.subrange(
                        b@.offset,
                        b@.offset + b@.size,
                    ));
                }
                Ok(moov_written)
            }
        },
        BoxInfo::Mdat(m) => {
            proof {
                assert(e@ == SpecBoxInfo::Mdat(m@));
                assert(crate::boxes::wf_top_entry(data@, SpecBoxInfo::Mdat(m@)));
                assert(m@.offset + m@.size <= data@.len());
            }
            let n = data.len();
            let a = m.offset;
            let sz = m.size as usize;
            proof {
                assert(m@.size <= n as int);
                assert(sz as int == m@.size);
            }
            let piece = vstd::slice::slice_subrange(data, a, a + sz);
            crate::bytes::push_bytes(output, piece);
            proof {
                assert(output@.subrange(0, old(output)@.len() as int) =~= old(output)@);
                assert(output@.skip(old(output)@.len() as int) =~= data@.subrange(
                    m@.offset,
                    m@.offset + m@.size,
                ));
            }
            Ok(moov_written)
        },
    }
}

/// Emits the rewritten file, as [`spec_emit`] describes with the
/// first-moov flag initially clear.
fn emit_reset(data: &[u8], boxes: &[BoxInfo], new_moov: &[u8], offsets: &[u64]) -> (r: Result<
    Vec<u8>,
    Mp4Error,
>)
    requires
        forall|k: int| 0 <= k < crate::boxes::info_views(boxes@).len()
            ==> #[trigger] crate::boxes::wf_top_entry(data@, crate::boxes::info_views(boxes@)[k]),
    ensures
        match r {
            Ok(out) => spec_emit(
                crate::boxes::info_views(boxes@),
                data@,
                new_moov@,
                offsets@,
                false,
            ) == Ok::<Seq<u8>, Mp4Error>(out@),
            Err(e) => spec_emit(
                crate::boxes::info_views(boxes@),
                data@,
                new_moov@,
                offsets@,
                false,
            ) == Err::<Seq<u8>, Mp4Error>(e),
        },
{
    let ghost es = crate::boxes::info_views(boxes@);
    let mut output: Vec<u8> = Vec::new();
    let mut moov_written = false;
    let mut i: usize = 0;
    proof {
        assert(es.skip(0) =~= es);
        match spec_emit(es, data@, new_moov@, offsets@, false) {
            Ok(rest) => {
                assert(output@ + rest =~= rest);
            },
            Err(_) => {},
        }
    }
    while i < boxes.len()
        invariant
            es == crate::boxes::info_views(boxes@),
            i <= boxes@.len(),
            forall|k: int| 0 <= k < es.len() ==> #[trigger] crate::boxes::wf_top_entry(
                data@,
                es[k],
            ),
            spec_emit(es, data@, new_moov@, offsets@, false) == match spec_emit(
                es.skip(i as int),
                data@,
                new_moov@,
                offsets@,
                moov_written,
            ) {
                Ok(rest) => Ok::<Seq<u8>, Mp4Error>(output@ + rest),
                Err(e) => Err::<Seq<u8>, Mp4Error>(e),
            },
        decreases boxes@.len() - i,
    {
        proof {
            assert(es.skip(i as int)[0] == es[i as int]);
            assert(es.skip(i as int).drop_first() =~= es.skip(i as int + 1));
            assert(crate::boxes::wf_top_entry(data@, es[i as int]));
        }
        let ghost prev_out = output@;
        match emit_entry(&mut output, data, &boxes[i], new_moov, offsets, moov_written) {
            Ok(mw2) => {
                proof {
                    let h = output@.skip(prev_out.len() as int);
                    assert(output@ =~= prev_out + h);
                    match spec_emit(es.skip(i as int + 1), data@, new_moov@, offsets@, mw2) {
                        Ok(rest) => {
                            assert(prev_out + (h + rest) =~= output@ + rest);
                        },
                        Err(_) => {},
                    }
                }
                moov_written = mw2;
            },
            Err(e) => {
                return Err(e);
            },
        }
        i = i + 1;
    }
    proof {
        assert(es.skip(boxes@.len() as int) =~= Seq::<SpecBoxInfo>::empty());
        match spec_emit(es, data@, new_moov@, offsets@, false) {
            Ok(_) => {
                assert(output@ + Seq::<u8>::empty() =~= output@);
            },
            Err(_) => {},
        }
    }
    Ok(output)
}

/// After a rebase by the value itself, the stored decode time is zero;
/// rebasing by zero leaves the field's value unchanged. Together these
/// drive the idempotence of the engine on tfdt boxes.
pub proof fn lemma_tfdt_rebase_to_zero(p: Seq<u8>, out: Seq<u8>)
    requires
        spec_reset_tfdt(p, spec_tfdt_value(p)) == Ok::<Seq<u8>, Mp4Error>(out),
        p.len() >= 8,
    ensures
        spec_tfdt_value(out) == 0,
{
    crate::bytes::lemma_be32_roundtrip(0);
    if p[0] == 1 && p.len() >= 12 {
        crate::bytes::lemma_be64_roundtrip(0);
        assert(out[0] == p[0]);
        assert(out.len() == p.len());
        assert(spec_tfdt_value(out) == crate::bytes::be64(out, 4));
        assert(out.subrange(4, 12) =~= be64_bytes(0));
        assert(crate::bytes::be64(out, 4) == crate::bytes::be64(be64_bytes(0), 0)) by {
            assert(out[4] == be64_bytes(0)[0]);
            assert(out[5] == be64_bytes(0)[1]);
            assert(out[6] == be64_bytes(0)[2]);
            assert(out[7] == be64_bytes(0)[3]);
            assert(out[8] == be64_bytes(0)[4]);
            assert(out[9] == be64_bytes(0)[5]);
            assert(out[10] == be64_bytes(0)[6]);
            assert(out[11] == be64_bytes(0)[7]);
        };
    } else {
        assert(out[0] == p[0]);
        assert(out.len() == p.len());
        assert(out[4] == be32_bytes(0)[0]);
        assert(out[5] == be32_bytes(0)[1]);
        assert(out[6] == be32_bytes(0)[2]);
        assert(out[7] == be32_bytes(0)[3]);
        assert(be32(out, 4) == be32(be32_bytes(0), 0));
        assert(!(out[0] == 1 && out.len() >= 12));
    }
}


/// Whether a header payload carries all-zero creation and
/// modification times, at the widths its version byte selects.
pub open spec fn times_zero(p: Seq<u8>) -> bool {
    &&& p.len() >= 12
    &&& (p[0] == 1 ==> p.len() >= 20 && crate::bytes::be64(p, 4) == 0 && crate::bytes::be64(
        p,
        12,
    ) == 0)
    &&& (p[0] != 1 ==> be32(p, 4) == 0 && be32(p, 8) == 0)
}

/// A zero-times rewrite really zeroes both time fields.
pub proof fn lemma_zero_times_zeroes(p: Seq<u8>, q: Seq<u8>)
    requires
        spec_zero_times(p) == Ok::<Seq<u8>, Mp4Error>(q),
    ensures
        times_zero(q),
{
    if p[0] == 1 {
        assert(q == zero_range(p, 4, 20));
        assert(q[0] == p[0]);
    } else {
        assert(q == zero_range(p, 4, 12));
        assert(q[0] == p[0]);
    }
}

/// A duration rewrite on the fragmented path zeroes both time fields
/// too: the duration lands outside the zeroed range.
pub proof fn lemma_reset_dur_zeroes(p: Seq<u8>, d: int, q: Seq<u8>)
    requires
        spec_reset_mvhd_dur(p, d) == Ok::<Seq<u8>, Mp4Error>(q),
    ensures
        times_zero(q),
{
    if p[0] == 1 {
        assert(q == put_bytes(zero_range(p, 4, 20), 24, be64_bytes(d)));
        assert(q[0] == p[0]);
        assert(forall|k: int| 4 <= k < 20 ==> #[trigger] q[k] == 0);
    } else {
        assert(q == put_bytes(zero_range(p, 4, 12), 16, be32_bytes(clamp32(d))));
        assert(q[0] == p[0]);
        assert(forall|k: int| 4 <= k < 12 ==> #[trigger] q[k] == 0);
    }
}

/// In a flat-path mdia rewrite, every rebuilt mdhd has zero times;
/// every other child is copied verbatim.
pub proof fn lemma_mdia_flat_zeroes(p: Seq<u8>, cs: Seq<SpecBox>, raws: Seq<crate::boxes::RawBox>)
    requires
        crate::boxes::fold_children(cs, mdia_child_flat_fn(p)) == Ok::<
            Seq<crate::boxes::RawBox>,
            Mp4Error,
        >(raws),
    ensures
        forall|k: int| 0 <= k < raws.len() && crate::boxes::is_boxed(
            #[trigger] raws[k],
            MDHD as int,
        ) ==> times_zero(crate::boxes::boxed_payload(raws[k])),
    decreases cs.len(),
{
    let f = mdia_child_flat_fn(p);
    if cs.len() == 0 {
    } else {
        match f(cs[0]) {
            Err(_) => {},
            Ok(h) => match crate::boxes::fold_children(cs.drop_first(), f) {
                Err(_) => {},
                Ok(rest) => {
                    assert(raws == h + rest);
                    lemma_mdia_flat_zeroes(p, cs.drop_first(), rest);
                    if cs[0].typ == MDHD as int {
                        match spec_zero_times(cs[0].payload) {
                            Ok(np) => {
                                lemma_zero_times_zeroes(cs[0].payload, np);
                            },
                            Err(_) => {},
                        }
                    }
                    assert forall|k: int| 0 <= k < raws.len() && crate::boxes::is_boxed(
                        #[trigger] raws[k],
                        MDHD as int,
                    ) implies times_zero(crate::boxes::boxed_payload(raws[k])) by {
                        if k >= h.len() {
                            assert(raws[k] == rest[k - h.len()]);
                        } else {
                            assert(raws[k] == h[0]);
                        }
                    }
                },
            },
        }
    }
}

/// In a flat-path trak rewrite, every rebuilt tkhd has zero times,
/// and no edts survives: none is rebuilt, and no verbatim span
/// carries the edts tag. Each rebuilt mdia is itself a flat-path mdia
/// rewrite, so [`lemma_mdia_flat_zeroes`] covers the mdhd inside it.
pub proof fn lemma_trak_flat_zeroes(p: Seq<u8>, cs: Seq<SpecBox>, raws: Seq<crate::boxes::RawBox>)
    requires
        crate::boxes::fold_children(cs, trak_child_flat_fn(p)) == Ok::<
            Seq<crate::boxes::RawBox>,
            Mp4Error,
        >(raws),
        forall|k: int| 0 <= k < cs.len() ==> #[trigger] crate::boxes::wf_child(p, cs[k]),
    ensures
        forall|k: int| 0 <= k < raws.len() && crate::boxes::is_boxed(
            #[trigger] raws[k],
            TKHD as int,
        ) ==> times_zero(crate::boxes::boxed_payload(raws[k])),
        forall|k: int| 0 <= k < raws.len() ==> !crate::boxes::is_boxed(
            #[trigger] raws[k],
            EDTS as int,
        ),
        forall|k: int| 0 <= k < raws.len() ==> ((#[trigger] raws[k])
            matches crate::boxes::RawBox::Span { bytes } ==> be32(bytes, 4) != EDTS as int),
    decreases cs.len(),
{
    let f = trak_child_flat_fn(p);
    if cs.len() == 0 {
    } else {
        match f(cs[0]) {
            Err(_) => {},
            Ok(h) => match crate::boxes::fold_children(cs.drop_first(), f) {
                Err(_) => {},
                Ok(rest) => {
                    assert(raws == h + rest);
                    assert forall|k: int| 0 <= k < cs.drop_first().len() implies #[trigger]
                        crate::boxes::wf_child(p, cs.drop_first()[k]) by {
                        assert(cs.drop_first()[k] == cs[k + 1]);
                    }
                    lemma_trak_flat_zeroes(p, cs.drop_first(), rest);
                    if cs[0].typ == TKHD as int {
                        match spec_zero_times(cs[0].payload) {
                            Ok(np) => {
                                lemma_zero_times_zeroes(cs[0].payload, np);
                            },
                            Err(_) => {},
                        }
                    }
                    if cs[0].typ != TKHD as int && cs[0].typ != MDIA as int && cs[0].typ
                        != EDTS as int {
                        let sp = p.subrange(cs[0].offset, cs[0].offset + cs[0].size);
                        assert(crate::boxes::wf_child(p, cs[0]));
                        assert(sp.subrange(4, 8) =~= p.subrange(
                            cs[0].offset + 4,
                            cs[0].offset + 8,
                        ));
                        crate::bytes::lemma_be32_depends_on_window(sp, 4, p, cs[0].offset + 4);
                        assert(be32(sp, 4) == cs[0].typ);
                    }
                    assert forall|k: int| 0 <= k < raws.len() && crate::boxes::is_boxed(
                        #[trigger] raws[k],
                        TKHD as int,
                    ) implies times_zero(crate::boxes::boxed_payload(raws[k])) by {
                        if k >= h.len() {
                            assert(raws[k] == rest[k - h.len()]);
                        } else {
                            assert(raws[k] == h[0]);
                        }
                    }
                    assert forall|k: int| 0 <= k < raws.len() implies !crate::boxes::is_boxed(
                        #[trigger] raws[k],
                        EDTS as int,
                    ) && ((raws[k]) matches crate::boxes::RawBox::Span { bytes } ==> be32(bytes, 4)
                        != EDTS as int) by {
                        if k >= h.len() {
                            assert(raws[k] == rest[k - h.len()]);
                        } else {
                            assert(raws[k] == h[0]);
                        }
                    }
                },
            },
        }
    }
}

/// In a flat-path moov rewrite, every rebuilt mvhd has zero times;
/// each rebuilt trak is itself a flat-path trak rewrite, so
/// [`lemma_trak_flat_zeroes`] covers the tkhd and edts inside it.
/// Together the three lemmas state that after a flat timestamp reset
/// every mvhd/tkhd/mdhd creation and modification time is exactly
/// zero and every edit list is gone.
pub proof fn lemma_moov_flat_zeroes(p: Seq<u8>, cs: Seq<SpecBox>, raws: Seq<crate::boxes::RawBox>)
    requires
        crate::boxes::fold_children(cs, moov_child_flat_fn(p)) == Ok::<
            Seq<crate::boxes::RawBox>,
            Mp4Error,
        >(raws),
    ensures
        forall|k: int| 0 <= k < raws.len() && crate::boxes::is_boxed(
            #[trigger] raws[k],
            MVHD as int,
        ) ==> times_zero(crate::boxes::boxed_payload(raws[k])),
    decreases cs.len(),
{
    let f = moov_child_flat_fn(p);
    if cs.len() == 0 {
    } else {
        match f(cs[0]) {
            Err(_) => {},
            Ok(h) => match crate::boxes::fold_children(cs.drop_first(), f) {
                Err(_) => {},
                Ok(rest) => {
                    assert(raws == h + rest);
                    lemma_moov_flat_zeroes(p, cs.drop_first(), rest);
                    if cs[0].typ == MVHD as int {
                        match spec_zero_times(cs[0].payload) {
                            Ok(np) => {
                                lemma_zero_times_zeroes(cs[0].payload, np);
                            },
                            Err(_) => {},
                        }
                    }
                    assert forall|k: int| 0 <= k < raws.len() && crate::boxes::is_boxed(
                        #[trigger] raws[k],
                        MVHD as int,
                    ) implies times_zero(crate::boxes::boxed_payload(raws[k])) by {
                        if k >= h.len() {
                            assert(raws[k] == rest[k - h.len()]);
                        } else {
                            assert(raws[k] == h[0]);
                        }
                    }
                },
            },
        }
    }
}

/// In a fragmented-path mdia rewrite, every rebuilt mdhd has zero
/// times.
pub proof fn lemma_mdia_dur_zeroes(
    p: Seq<u8>,
    cs: Seq<SpecBox>,
    dur: int,
    raws: Seq<crate::boxes::RawBox>,
)
    requires
        crate::boxes::fold_children(cs, mdia_child_dur_fn(p, dur)) == Ok::<
            Seq<crate::boxes::RawBox>,
            Mp4Error,
        >(raws),
    ensures
        forall|k: int| 0 <= k < raws.len() && crate::boxes::is_boxed(
            #[trigger] raws[k],
            MDHD as int,
        ) ==> times_zero(crate::boxes::boxed_payload(raws[k])),
    decreases cs.len(),
{
    let f = mdia_child_dur_fn(p, dur);
    if cs.len() == 0 {
    } else {
        match f(cs[0]) {
            Err(_) => {},
            Ok(h) => match crate::boxes::fold_children(cs.drop_first(), f) {
                Err(_) => {},
                Ok(rest) => {
                    assert(raws == h + rest);
                    lemma_mdia_dur_zeroes(p, cs.drop_first(), dur, rest);
                    if cs[0].typ == MDHD as int {
                        match spec_reset_mdhd_dur(cs[0].payload, dur) {
                            Ok(np) => {
                                lemma_reset_dur_zeroes(cs[0].payload, dur, np);
                            },
                            Err(_) => {},
                        }
                    }
                    assert forall|k: int| 0 <= k < raws.len() && crate::boxes::is_boxed(
                        #[trigger] raws[k],
                        MDHD as int,
                    ) implies times_zero(crate::boxes::boxed_payload(raws[k])) by {
                        if k >= h.len() {
                            assert(raws[k] == rest[k - h.len()]);
                        } else {
                            assert(raws[k] == h[0]);
                        }
                    }
                },
            },
        }
    }
}

/// In a fragmented-path trak rewrite, every rebuilt tkhd has zero
/// times.
pub proof fn lemma_trak_dur_zeroes(
    p: Seq<u8>,
    cs: Seq<SpecBox>,
    dur: int,
    raws: Seq<crate::boxes::RawBox>,
)
    requires
        crate::boxes::fold_children(cs, trak_child_dur_fn(p, dur)) == Ok::<
            Seq<crate::boxes::RawBox>,
            Mp4Error,
        >(raws),
    ensures
        forall|k: int| 0 <= k < raws.len() && crate::boxes::is_boxed(
            #[trigger] raws[k],
            TKHD as int,
        ) ==> times_zero(crate::boxes::boxed_payload(raws[k])),
    decreases cs.len(),
{
    let f = trak_child_dur_fn(p, dur);
    if cs.len() == 0 {
    } else {
        match f(cs[0]) {
            Err(_) => {},
            Ok(h) => match crate::boxes::fold_children(cs.drop_first(), f) {
                Err(_) => {},
                Ok(rest) => {
                    assert(raws == h + rest);
                    lemma_trak_dur_zeroes(p, cs.drop_first(), dur, rest);
                    if cs[0].typ == TKHD as int {
                        match spec_reset_tkhd_dur(cs[0].payload, dur) {
                            Ok(np) => {
                                assert(times_zero(np)) by {
                                    if cs[0].payload[0] == 1 {
                                        assert(np == put_bytes(
                                            zero_range(cs[0].payload, 4, 20),
                                            24,
                                            be64_bytes(dur),
                                        ));
                                        assert(np[0] == cs[0].payload[0]);
                                        assert(forall|j: int| 4 <= j < 20 ==> #[trigger] np[j]
                                            == 0);
                                    } else {
                                        assert(np == put_bytes(
                                            zero_range(cs[0].payload, 4, 12),
                                            16,
                                            be32_bytes(clamp32(dur)),
                                        ));
                                        assert(np[0] == cs[0].payload[0]);
                                        assert(forall|j: int| 4 <= j < 12 ==> #[trigger] np[j]
                                            == 0);
                                    }
                                };
                            },
                            Err(_) => {},
                        }
                    }
                    assert forall|k: int| 0 <= k < raws.len() && crate::boxes::is_boxed(
                        #[trigger] raws[k],
                        TKHD as int,
                    ) implies times_zero(crate::boxes::boxed_payload(raws[k])) by {
                        if k >= h.len() {
                            assert(raws[k] == rest[k - h.len()]);
                        } else {
                            assert(raws[k] == h[0]);
                        }
                    }
                },
            },
        }
    }
}

/// In a fragmented-path moov rewrite, every rebuilt mvhd has zero
/// times; together with [`lemma_trak_dur_zeroes`] and
/// [`lemma_mdia_dur_zeroes`] this states that after a fragmented
/// timestamp reset every mvhd/tkhd/mdhd creation and modification
/// time is exactly zero.
pub proof fn lemma_moov_dur_zeroes(
    p: Seq<u8>,
    cs: Seq<SpecBox>,
    durs: Seq<u64>,
    ti: int,
    raws: Seq<crate::boxes::RawBox>,
)
    requires
        spec_fold_moov_dur(p, cs, durs, ti) == Ok::<Seq<crate::boxes::RawBox>, Mp4Error>(raws),
    ensures
        forall|k: int| 0 <= k < raws.len() && crate::boxes::is_boxed(
            #[trigger] raws[k],
            MVHD as int,
        ) ==> times_zero(crate::boxes::boxed_payload(raws[k])),
    decreases cs.len(),
{
    if cs.len() == 0 {
    } else {
        let c = cs[0];
        let head: Result<Seq<crate::boxes::RawBox>, Mp4Error> = if c.typ == MVHD as int {
            match spec_reset_mvhd_dur(c.payload, movie_dur(durs)) {
                Err(e) => Err(e),
                Ok(np) => Ok(seq![crate::boxes::RawBox::Boxed { typ: c.typ, payload: np }]),
            }
        } else if c.typ == TRAK as int {
            match spec_reset_trak_dur(c.payload, dur_at(durs, ti)) {
                Err(e) => Err(e),
                Ok(np) => Ok(seq![crate::boxes::RawBox::Boxed { typ: c.typ, payload: np }]),
            }
        } else {
            Ok(seq![crate::boxes::RawBox::Span { bytes: p.subrange(c.offset, c.offset + c.size) }])
        };
        let ti2: int = if c.typ == TRAK as int {
            ti + 1
        } else {
            ti
        };
        match head {
            Err(_) => {},
            Ok(h) => match spec_fold_moov_dur(p, cs.drop_first(), durs, ti2) {
                Err(_) => {},
                Ok(rest) => {
                    assert(raws == h + rest);
                    lemma_moov_dur_zeroes(p, cs.drop_first(), durs, ti2, rest);
                    if c.typ == MVHD as int {
                        match spec_reset_mvhd_dur(c.payload, movie_dur(durs)) {
                            Ok(np) => {
                                lemma_reset_dur_zeroes(c.payload, movie_dur(durs), np);
                            },
                            Err(_) => {},
                        }
                    }
                    assert forall|k: int| 0 <= k < raws.len() && crate::boxes::is_boxed(
                        #[trigger] raws[k],
                        MVHD as int,
                    ) implies times_zero(crate::boxes::boxed_payload(raws[k])) by {
                        if k >= h.len() {
                            assert(raws[k] == rest[k - h.len()]);
                        } else {
                            assert(raws[k] == h[0]);
                        }
                    }
                },
            },
        }
    }
}

/// Zeroing the time fields twice gives the same bytes as zeroing them
/// once: the flat reset path is idempotent on every header box it
/// rewrites.
pub proof fn lemma_zero_times_idempotent(p: Seq<u8>, q: Seq<u8>)
    requires
        spec_zero_times(p) == Ok::<Seq<u8>, Mp4Error>(q),
    ensures
        spec_zero_times(q) == Ok::<Seq<u8>, Mp4Error>(q),
{
    if p[0] == 1 {
        assert(q == zero_range(p, 4, 20));
        assert(q[0] == p[0]);
        assert(zero_range(q, 4, 20) =~= q);
    } else {
        assert(q == zero_range(p, 4, 12));
        assert(q[0] == p[0]);
        assert(zero_range(q, 4, 12) =~= q);
    }
}

/// Rebasing a tfdt by zero writes back exactly the bytes that were
/// read: together with [`lemma_tfdt_rebase_to_zero`] (the first
/// rebased value is zero, so a second pass captures a zero base) this
/// makes a second rebase of an already-rebased tfdt the identity.
pub proof fn lemma_tfdt_rebase_by_zero_identity(q: Seq<u8>)
    requires
        q.len() >= 8,
        q[0] == 1 ==> q.len() >= 12,
    ensures
        spec_reset_tfdt(q, 0) == Ok::<Seq<u8>, Mp4Error>(q),
{
    if q[0] == 1 && q.len() >= 12 {
        let v = spec_tfdt_value(q);
        assert(v == crate::bytes::be64(q, 12 - 8));
        assert(sat_sub(v, 0) == v);
        let hi = be32(q, 4);
        let lo = be32(q, 8);
        assert(v == hi * 0x100000000 + lo);
        assert(v / 0x100000000 == hi && v % 0x100000000 == lo) by (nonlinear_arith)
            requires v == hi * 0x100000000 + lo, 0 <= lo < 0x100000000, 0 <= hi;
        assert(q.subrange(4, 8).len() == 4);
        crate::bytes::lemma_be32_bytes_of_be32(q.subrange(4, 8));
        crate::bytes::lemma_be32_bytes_of_be32(q.subrange(8, 12));
        assert(be32(q.subrange(4, 8), 0) == hi) by {
            assert(q.subrange(4, 8)[0] == q[4]);
            assert(q.subrange(4, 8)[1] == q[5]);
            assert(q.subrange(4, 8)[2] == q[6]);
            assert(q.subrange(4, 8)[3] == q[7]);
        };
        assert(be32(q.subrange(8, 12), 0) == lo) by {
            assert(q.subrange(8, 12)[0] == q[8]);
            assert(q.subrange(8, 12)[1] == q[9]);
            assert(q.subrange(8, 12)[2] == q[10]);
            assert(q.subrange(8, 12)[3] == q[11]);
        };
        assert(put_bytes(q, 4, be64_bytes(v)) =~= q);
    } else if q.len() >= 8 {
        let v = spec_tfdt_value(q);
        assert(v == be32(q, 4));
        assert(sat_sub(v, 0) == v);
        crate::bytes::lemma_be32_bytes_of_be32(q.subrange(4, 8));
        assert(be32(q.subrange(4, 8), 0) == v) by {
            assert(q.subrange(4, 8)[0] == q[4]);
            assert(q.subrange(4, 8)[1] == q[5]);
            assert(q.subrange(4, 8)[2] == q[6]);
            assert(q.subrange(4, 8)[3] == q[7]);
        };
        assert(put_bytes(q, 4, be32_bytes(v)) =~= q);
    }
}

} // verus!
