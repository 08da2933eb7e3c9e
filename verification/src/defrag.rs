//! Fragment collector, sample-table builder and defragmenter.
//!
//! A fragmented MP4 stores its samples in moof/mdat pairs. To turn it
//! into a flat, progressively-downloadable file, every track's sample
//! descriptors and payload bytes are gathered across all fragments,
//! fresh sample tables (stts/stsc/stsz/stco/ctts/stss) are built, and
//! one ftyp + moov + mdat file is emitted. Chunk offsets depend on the
//! size of moov itself, so moov is built twice: once with placeholder
//! offsets purely to measure it, then again with the real offsets.

use vstd::prelude::*;
use crate::bytes::{be32, be32_bytes};
use crate::boxes::{
    BoxInfo, Mp4Box, SpecBox, SpecBoxInfo, MOOV, MOOF, TRAK, TRAF, TFHD, TFDT, TRUN, MVHD, TKHD,
    MDHD, MDIA, MINF, STBL, STSD, MDAT, CTTS, STSS, STTS, STSC, STSZ, STCO,
};
use crate::codecs::{SampleDescriptor, SpecSample, sample_views};
use crate::reset::{sat_sub, sat_add64, clamp32, zero_range, put_bytes};
use crate::Mp4Error;

verus! {

/// One track's data accumulated across every moof/mdat pair: sample
/// descriptors, concatenated payload bytes, timescale and the cached
/// stsd payload from moov.
#[derive(Debug)]
pub struct TrackFragments {
    pub track_id: u32,
    pub samples: Vec<SampleDescriptor>,
    pub mdat_data: Vec<u8>,
    pub timescale: u32,
    pub codec_info: Vec<u8>,
}

/// Mathematical value of one accumulated track.
pub struct SpecTrack {
    pub track_id: int,
    pub samples: Seq<SpecSample>,
    pub mdat: Seq<u8>,
    pub timescale: int,
    pub codec: Seq<u8>,
}

impl View for TrackFragments {
    type V = SpecTrack;

    open spec fn view(&self) -> SpecTrack {
        SpecTrack {
            track_id: self.track_id as int,
            samples: sample_views(self.samples@),
            mdat: self.mdat_data@,
            timescale: self.timescale as int,
            codec: self.codec_info@,
        }
    }
}

/// The views of a track vector, in order.
pub open spec fn track_views(v: Seq<TrackFragments>) -> Seq<SpecTrack> {
    v.map_values(|t: TrackFragments| t@)
}

/// An mvhd payload downgraded to version 0 with times zeroed and the
/// duration replaced (clamped to 32 bits). A version-1 payload is
/// rebuilt at the fixed version-0 size; rate, volume and matrix take
/// their default values and the timescale and next-track id carry
/// over. A payload too short for the fields its version byte declares
/// is an error: no partial rewrite is produced.
pub open spec fn spec_update_mvhd_dur(p: Seq<u8>, dur: int) -> Result<Seq<u8>, Mp4Error> {
    if p.len() < 1 {
        Err(Mp4Error::TruncatedData)
    } else if p[0] == 1 && p.len() < 32 {
        Err(Mp4Error::TruncatedData)
    } else if p[0] == 1 {
        Ok(
            Seq::new(12 as nat, |_i: int| 0u8) + p.subrange(20, 24) + be32_bytes(clamp32(dur))
                + seq![0u8, 1, 0, 0] + seq![1u8, 0] + Seq::new(10 as nat, |_i: int| 0u8)
                + seq![0u8, 1, 0, 0] + Seq::new(12 as nat, |_i: int| 0u8) + seq![0u8, 1, 0, 0]
                + Seq::new(12 as nat, |_i: int| 0u8) + seq![0x40u8, 0, 0, 0] + Seq::new(
                24 as nat,
                |_i: int| 0u8,
            ) + (if p.len() >= 112 {
                p.subrange(108, 112)
            } else {
                seq![0u8, 0, 0, 3]
            }) + Seq::new(8 as nat, |_i: int| 0u8),
        )
    } else if p.len() >= 20 {
        Ok(put_bytes(zero_range(p, 4, 12), 16, be32_bytes(clamp32(dur))))
    } else {
        Err(Mp4Error::TruncatedData)
    }
}

fn update_mvhd_duration(mvhd_data: &[u8], duration: u64) -> (r: Result<Vec<u8>, Mp4Error>)
    ensures
        match r {
            Ok(out) => spec_update_mvhd_dur(mvhd_data@, duration as int) == Ok::<
                Seq<u8>,
                Mp4Error,
            >(out@),
            Err(e) => spec_update_mvhd_dur(mvhd_data@, duration as int) == Err::<
                Seq<u8>,
                Mp4Error,
            >(e),
        },
{
    if mvhd_data.len() < 1 {
        return Err(Mp4Error::TruncatedData);
    }
    let duration_32: u32 = if duration > 0xffffffff {
        0xffffffffu32
    } else {
        duration as u32
    };
    if mvhd_data[0] == 1 && mvhd_data.len() < 32 {
        return Err(Mp4Error::TruncatedData);
    }
    if mvhd_data[0] == 1 {
        let mut out: Vec<u8> = Vec::new();
        crate::bytes::push_zeros(&mut out, 12);
        push_subrange(&mut out, mvhd_data, 20, 24);
        crate::bytes::push_be_u32(&mut out, duration_32);
        crate::bytes::push_be_u32(&mut out, 0x00010000);
        out.push(1);
        out.push(0);
        crate::bytes::push_zeros(&mut out, 10);
        crate::bytes::push_be_u32(&mut out, 0x00010000);
        crate::bytes::push_zeros(&mut out, 12);
        crate::bytes::push_be_u32(&mut out, 0x00010000);
        crate::bytes::push_zeros(&mut out, 12);
        crate::bytes::push_be_u32(&mut out, 0x40000000);
        crate::bytes::push_zeros(&mut out, 24);
        if mvhd_data.len() >= 112 {
            push_subrange(&mut out, mvhd_data, 108, 112);
        } else {
            crate::bytes::push_be_u32(&mut out, 3);
        }
        crate::bytes::push_zeros(&mut out, 8);
        proof {
            assert(be32_bytes(0x00010000) =~= seq![0u8, 1, 0, 0]);
            assert(be32_bytes(0x40000000) =~= seq![0x40u8, 0, 0, 0]);
            assert(be32_bytes(3) =~= seq![0u8, 0, 0, 3]);
            match spec_update_mvhd_dur(mvhd_data@, duration as int) {
                Ok(sp) => {
                    assert(out@ =~= sp);
                },
                Err(_) => {},
            }
        }
        Ok(out)
    } else if mvhd_data.len() >= 20 {
        let mut out = vstd::slice::slice_to_vec(mvhd_data);
        crate::bytes::store_be_u32(&mut out, 4, 0);
        crate::bytes::store_be_u32(&mut out, 8, 0);
        crate::bytes::store_be_u32(&mut out, 16, duration_32);
        proof {
            assert(out@ =~= put_bytes(
                zero_range(mvhd_data@, 4, 12),
                16,
                be32_bytes(clamp32(duration as int)),
            ));
        }
        Ok(out)
    } else {
        Err(Mp4Error::TruncatedData)
    }
}

/// Appends `src[a..b]` to `out`.
fn push_subrange(out: &mut Vec<u8>, src: &[u8], a: usize, b: usize)
    requires
        a <= b,
        b <= src@.len(),
    ensures
        final(out)@ == old(out)@ + src@.subrange(a as int, b as int),
{
    let s = vstd::slice::slice_subrange(src, a, b);
    crate::bytes::push_bytes(out, s);
}

/// A tkhd payload downgraded to version 0 with times zeroed and the
/// duration replaced (clamped); track id, flags and the trailing
/// presentation fields carry over. A payload too short for the fields
/// its version byte declares is an error: no partial rewrite is
/// produced.
pub open spec fn spec_update_tkhd_dur(p: Seq<u8>, dur: int) -> Result<Seq<u8>, Mp4Error> {
    if p.len() < 1 {
        Err(Mp4Error::TruncatedData)
    } else if p[0] == 1 && p.len() < 36 {
        Err(Mp4Error::TruncatedData)
    } else if p[0] == 1 {
        Ok(
            seq![0u8] + p.subrange(1, 4) + Seq::new(8 as nat, |_i: int| 0u8) + p.subrange(20, 24)
                + Seq::new(4 as nat, |_i: int| 0u8) + be32_bytes(clamp32(dur)) + (if p.len()
                >= 104 {
                p.subrange(36, 104)
            } else {
                Seq::new(68 as nat, |_i: int| 0u8)
            }),
        )
    } else if p.len() >= 24 {
        Ok(put_bytes(zero_range(p, 4, 12), 20, be32_bytes(clamp32(dur))))
    } else {
        Err(Mp4Error::TruncatedData)
    }
}

fn update_tkhd_duration(tkhd_data: &[u8], duration: u64) -> (r: Result<Vec<u8>, Mp4Error>)
    ensures
        match r {
            Ok(out) => spec_update_tkhd_dur(tkhd_data@, duration as int) == Ok::<
                Seq<u8>,
                Mp4Error,
            >(out@),
            Err(e) => spec_update_tkhd_dur(tkhd_data@, duration as int) == Err::<
                Seq<u8>,
                Mp4Error,
            >(e),
        },
{
    if tkhd_data.len() < 1 {
        return Err(Mp4Error::TruncatedData);
    }
    let duration_32: u32 = if duration > 0xffffffff {
        0xffffffffu32
    } else {
        duration as u32
    };
    if tkhd_data[0] == 1 && tkhd_data.len() < 36 {
        return Err(Mp4Error::TruncatedData);
    }
    if tkhd_data[0] == 1 {
        let mut out: Vec<u8> = Vec::new();
        out.push(0);
        push_subrange(&mut out, tkhd_data, 1, 4);
        crate::bytes::push_zeros(&mut out, 8);
        push_subrange(&mut out, tkhd_data, 20, 24);
        crate::bytes::push_zeros(&mut out, 4);
        crate::bytes::push_be_u32(&mut out, duration_32);
        if tkhd_data.len() >= 104 {
            push_subrange(&mut out, tkhd_data, 36, 104);
        } else {
            crate::bytes::push_zeros(&mut out, 68);
        }
        proof {
            match spec_update_tkhd_dur(tkhd_data@, duration as int) {
                Ok(sp) => {
                    assert(out@ =~= sp);
                },
                Err(_) => {},
            }
        }
        Ok(out)
    } else if tkhd_data.len() >= 24 {
        let mut out = vstd::slice::slice_to_vec(tkhd_data);
        crate::bytes::store_be_u32(&mut out, 4, 0);
        crate::bytes::store_be_u32(&mut out, 8, 0);
        crate::bytes::store_be_u32(&mut out, 20, duration_32);
        proof {
            assert(out@ =~= put_bytes(
                zero_range(tkhd_data@, 4, 12),
                20,
                be32_bytes(clamp32(duration as int)),
            ));
        }
        Ok(out)
    } else {
        Err(Mp4Error::TruncatedData)
    }
}

/// An mdhd payload downgraded to version 0 with times zeroed and the
/// duration replaced (clamped); timescale and language carry over. A
/// payload too short for the fields its version byte declares is an
/// error: no partial rewrite is produced.
pub open spec fn spec_update_mdhd_dur(p: Seq<u8>, dur: int) -> Result<Seq<u8>, Mp4Error> {
    if p.len() < 1 {
        Err(Mp4Error::TruncatedData)
    } else if p[0] == 1 && p.len() < 32 {
        Err(Mp4Error::TruncatedData)
    } else if p[0] == 1 {
        Ok(
            seq![0u8] + p.subrange(1, 4) + Seq::new(8 as nat, |_i: int| 0u8) + p.subrange(20, 24)
                + be32_bytes(clamp32(dur)) + (if p.len() >= 36 {
                p.subrange(32, 36)
            } else {
                Seq::new(4 as nat, |_i: int| 0u8)
            }) + (if p.len() >= 44 {
                p.subrange(36, 44)
            } else {
                Seq::new(8 as nat, |_i: int| 0u8)
            }),
        )
    } else if p.len() >= 20 {
        Ok(put_bytes(zero_range(p, 4, 12), 16, be32_bytes(clamp32(dur))))
    } else {
        Err(Mp4Error::TruncatedData)
    }
}

fn update_mdhd_duration(mdhd_data: &[u8], duration: u64) -> (r: Result<Vec<u8>, Mp4Error>)
    ensures
        match r {
            Ok(out) => spec_update_mdhd_dur(mdhd_data@, duration as int) == Ok::<
                Seq<u8>,
                Mp4Error,
            >(out@),
            Err(e) => spec_update_mdhd_dur(mdhd_data@, duration as int) == Err::<
                Seq<u8>,
                Mp4Error,
            >(e),
        },
{
    if mdhd_data.len() < 1 {
        return Err(Mp4Error::TruncatedData);
    }
    let duration_32: u32 = if duration > 0xffffffff {
        0xffffffffu32
    } else {
        duration as u32
    };
    if mdhd_data[0] == 1 && mdhd_data.len() < 32 {
        return Err(Mp4Error::TruncatedData);
    }
    if mdhd_data[0] == 1 {
        let mut out: Vec<u8> = Vec::new();
        out.push(0);
        push_subrange(&mut out, mdhd_data, 1, 4);
        crate::bytes::push_zeros(&mut out, 8);
        push_subrange(&mut out, mdhd_data, 20, 24);
        crate::bytes::push_be_u32(&mut out, duration_32);
        if mdhd_data.len() >= 36 {
            push_subrange(&mut out, mdhd_data, 32, 36);
        } else {
            crate::bytes::push_zeros(&mut out, 4);
        }
        if mdhd_data.len() >= 44 {
            push_subrange(&mut out, mdhd_data, 36, 44);
        } else {
            crate::bytes::push_zeros(&mut out, 8);
        }
        proof {
            match spec_update_mdhd_dur(mdhd_data@, duration as int) {
                Ok(sp) => {
                    assert(out@ =~= sp);
                },
                Err(_) => {},
            }
        }
        Ok(out)
    } else if mdhd_data.len() >= 20 {
        let mut out = vstd::slice::slice_to_vec(mdhd_data);
        crate::bytes::store_be_u32(&mut out, 4, 0);
        crate::bytes::store_be_u32(&mut out, 8, 0);
        crate::bytes::store_be_u32(&mut out, 16, duration_32);
        proof {
            assert(out@ =~= put_bytes(
                zero_range(mdhd_data@, 4, 12),
                16,
                be32_bytes(clamp32(duration as int)),
            ));
        }
        Ok(out)
    } else {
        Err(Mp4Error::TruncatedData)
    }
}

/// The sum of the sizes of the first `k` samples.
pub open spec fn sum_sizes(ss: Seq<SpecSample>, k: int) -> int
    decreases k,
{
    if k <= 0 {
        0
    } else {
        sum_sizes(ss, k - 1) + ss[k - 1].size
    }
}

pub proof fn lemma_sum_sizes_bounds(ss: Seq<SpecSample>, k: int)
    requires
        0 <= k <= ss.len(),
        forall|i: int| 0 <= i < ss.len() ==> 0 <= (#[trigger] ss[i]).size < 0x100000000,
    ensures
        0 <= sum_sizes(ss, k),
        sum_sizes(ss, k) <= k * 0x100000000,
        forall|j: int| k <= j <= ss.len() ==> sum_sizes(ss, k) <= #[trigger] sum_sizes(ss, j),
    decreases k,
{
    if k == 0 {
    } else {
        lemma_sum_sizes_bounds(ss, k - 1);
        assert((k - 1) * 0x100000000 + 0x100000000 == k * 0x100000000) by (nonlinear_arith);
        assert forall|j: int| k - 1 <= j <= ss.len() implies sum_sizes(ss, k - 1)
            <= #[trigger] sum_sizes(ss, j) by {}
    }
    assert forall|j: int| k <= j <= ss.len() implies sum_sizes(ss, k) <= #[trigger] sum_sizes(
        ss,
        j,
    ) by {
        lemma_sum_sizes_step(ss, k, j);
    }
}

proof fn lemma_sum_sizes_step(ss: Seq<SpecSample>, k: int, j: int)
    requires
        0 <= k <= j <= ss.len(),
        forall|i: int| 0 <= i < ss.len() ==> 0 <= (#[trigger] ss[i]).size < 0x100000000,
    ensures
        sum_sizes(ss, k) <= sum_sizes(ss, j),
    decreases j - k,
{
    if k < j {
        lemma_sum_sizes_step(ss, k, j - 1);
    }
}

/// The serialized stsz payload: shared size zero, then one explicit
/// 32-bit size per sample.
pub open spec fn spec_build_stsz(ss: Seq<SpecSample>) -> Seq<u8> {
    Seq::new(4 as nat, |_i: int| 0u8) + be32_bytes(0) + be32_bytes(ss.len() as int) + Seq::new(
        (4 * ss.len()) as nat,
        |i: int| be32_bytes(ss[i / 4].size)[i % 4],
    )
}

/// Builds the stsz (sample size) payload.
fn build_stsz(samples: &[SampleDescriptor]) -> (out: Vec<u8>)
    requires
        samples@.len() < 0x100000000,
    ensures
        out@ == spec_build_stsz(sample_views(samples@)),
{
    let ghost ss = sample_views(samples@);
    let mut out: Vec<u8> = Vec::new();
    crate::bytes::push_zeros(&mut out, 4);
    crate::bytes::push_be_u32(&mut out, 0);
    crate::bytes::push_be_u32(&mut out, samples.len() as u32);
    let ghost head = out@;
    let mut i: usize = 0;
    while i < samples.len()
        invariant
            ss == sample_views(samples@),
            i <= samples@.len(),
            head.len() == 12,
            out@.len() == head.len() + 4 * i,
            out@.subrange(0, head.len() as int) == head,
            forall|j: int| head.len() <= j < out@.len() ==> #[trigger] out@[j] == be32_bytes(
                ss[(j - head.len()) / 4].size,
            )[(j - head.len()) % 4],
        decreases samples@.len() - i,
    {
        crate::bytes::push_be_u32(&mut out, samples[i].size);
        proof {
            assert(out@.subrange(0, head.len() as int) =~= head);
            assert forall|j: int| head.len() <= j < out@.len() implies #[trigger] out@[j]
                == be32_bytes(ss[(j - head.len()) / 4].size)[(j - head.len()) % 4] by {
                let dj = j - head.len();
                if dj < 4 * i {
                } else {
                    assert(dj / 4 == i as int) by (nonlinear_arith)
                        requires 4 * i <= dj < 4 * (i + 1), i >= 0;
                    assert(out@[j] == be32_bytes(ss[i as int].size)[dj - 4 * i]);
                    assert(dj % 4 == dj - 4 * i) by (nonlinear_arith)
                        requires 4 * i <= dj < 4 * (i + 1), i >= 0;
                }
            }
        }
        i = i + 1;
    }
    proof {
        assert(out@ =~= spec_build_stsz(ss));
    }
    out
}

/// The serialized stsc payload: a single run mapping every chunk to
/// one sample.
pub open spec fn spec_build_stsc() -> Seq<u8> {
    Seq::new(4 as nat, |_i: int| 0u8) + be32_bytes(1) + be32_bytes(1) + be32_bytes(1)
        + be32_bytes(1)
}

/// Builds the stsc (sample to chunk) payload: every sample sits in its
/// own chunk, a deliberate simplicity-over-compactness trade-off.
fn build_stsc_multi_chunk() -> (out: Vec<u8>)
    ensures
        out@ == spec_build_stsc(),
{
    let mut out: Vec<u8> = Vec::new();
    crate::bytes::push_zeros(&mut out, 4);
    crate::bytes::push_be_u32(&mut out, 1);
    crate::bytes::push_be_u32(&mut out, 1);
    crate::bytes::push_be_u32(&mut out, 1);
    crate::bytes::push_be_u32(&mut out, 1);
    proof {
        assert(out@ =~= spec_build_stsc());
    }
    out
}

/// The serialized stco payload: one 32-bit chunk offset per sample,
/// each the mdat base plus the sizes of the samples before it.
pub open spec fn spec_build_stco(ss: Seq<SpecSample>, base: int) -> Seq<u8> {
    Seq::new(4 as nat, |_i: int| 0u8) + be32_bytes(ss.len() as int) + Seq::new(
        (4 * ss.len()) as nat,
        |i: int| be32_bytes(base + sum_sizes(ss, i / 4))[i % 4],
    )
}

/// Builds the stco (chunk offset) payload from the mdat base offset.
fn build_stco_multi_chunk(samples: &[SampleDescriptor], mdat_start_offset: u64) -> (out: Vec<u8>)
    requires
        samples@.len() < 0x100000000,
    ensures
        out@ == spec_build_stco(sample_views(samples@), mdat_start_offset as int),
{
    let ghost ss = sample_views(samples@);
    let ghost base = mdat_start_offset as int;
    let mut out: Vec<u8> = Vec::new();
    crate::bytes::push_zeros(&mut out, 4);
    crate::bytes::push_be_u32(&mut out, samples.len() as u32);
    let ghost head = out@;
    let mut cursor: u128 = mdat_start_offset as u128;
    let mut i: usize = 0;
    proof {
        lemma_sum_sizes_bounds(ss, ss.len() as int);
    }
    while i < samples.len()
        invariant
            ss == sample_views(samples@),
            ss.len() < 0x100000000,
            base == mdat_start_offset as int,
            i <= samples@.len(),
            head.len() == 8,
            cursor == base + sum_sizes(ss, i as int),
            out@.len() == head.len() + 4 * i,
            out@.subrange(0, head.len() as int) == head,
            forall|j: int| head.len() <= j < out@.len() ==> #[trigger] out@[j] == be32_bytes(
                base + sum_sizes(ss, (j - head.len()) / 4),
            )[(j - head.len()) % 4],
        decreases samples@.len() - i,
    {
        proof {
            lemma_sum_sizes_bounds(ss, i as int);
            assert(sum_sizes(ss, i as int) <= (i as int) * 0x100000000);
            assert((i as int) * 0x100000000 < 0x100000000 * 0x100000000) by (nonlinear_arith)
                requires 0 <= i < 0x100000000;
            crate::bytes::lemma_be32_bytes_mod(base + sum_sizes(ss, i as int));
        }
        let word: u32 = (cursor % 0x100000000) as u32;
        crate::bytes::push_be_u32(&mut out, word);
        proof {
            assert(out@.subrange(0, head.len() as int) =~= head);
            assert forall|j: int| head.len() <= j < out@.len() implies #[trigger] out@[j]
                == be32_bytes(base + sum_sizes(ss, (j - head.len()) / 4))[(j - head.len())
                % 4] by {
                let dj = j - head.len();
                if dj < 4 * i {
                } else {
                    assert(dj / 4 == i as int) by (nonlinear_arith)
                        requires 4 * i <= dj < 4 * (i + 1), i >= 0;
                    assert(out@[j] == be32_bytes(base + sum_sizes(ss, i as int))[dj - 4 * i]);
                    assert(dj % 4 == dj - 4 * i) by (nonlinear_arith)
                        requires 4 * i <= dj < 4 * (i + 1), i >= 0;
                }
            }
            assert(0 <= ss[i as int].size < 0x100000000);
        }
        cursor = cursor + samples[i].size as u128;
        i = i + 1;
    }
    proof {
        assert(out@ =~= spec_build_stco(ss, base));
    }
    out
}

/// Whether a sample is a sync (key) sample: the two-bit "depends on"
/// field (bits 24..26 of the sample flags) is 0 (unknown) or 2 (an
/// I-frame).
pub open spec fn is_sync(s: SpecSample) -> bool {
    (s.flags / 0x1000000) % 4 == 0 || (s.flags / 0x1000000) % 4 == 2
}

/// The 1-based indices of the sync samples.
pub open spec fn sync_indices(ss: Seq<SpecSample>) -> Seq<int>
    decreases ss.len(),
{
    if ss.len() == 0 {
        Seq::empty()
    } else {
        sync_indices(ss.drop_last()) + (if is_sync(ss.last()) {
            seq![ss.len() as int]
        } else {
            Seq::empty()
        })
    }
}

/// The serialized stss payload, or empty when no sample is a sync
/// sample (the box is omitted then).
pub open spec fn spec_build_stss(ss: Seq<SpecSample>) -> Seq<u8> {
    let ks = sync_indices(ss);
    if ks.len() == 0 {
        Seq::empty()
    } else {
        Seq::new(4 as nat, |_i: int| 0u8) + be32_bytes(ks.len() as int) + Seq::new(
            (4 * ks.len()) as nat,
            |i: int| be32_bytes(ks[i / 4])[i % 4],
        )
    }
}

pub proof fn lemma_sync_indices_take(ss: Seq<SpecSample>, k: int)
    requires
        0 <= k <= ss.len(),
    ensures
        sync_indices(ss.take(k)) == (if k == 0 {
            Seq::<int>::empty()
        } else {
            sync_indices(ss.take(k - 1)) + (if is_sync(ss[k - 1]) {
                seq![k]
            } else {
                Seq::<int>::empty()
            })
        }),
        sync_indices(ss.take(k)).len() <= k,
    decreases k,
{
    if k == 0 {
        assert(ss.take(0) =~= Seq::<SpecSample>::empty());
    } else {
        lemma_sync_indices_take(ss, k - 1);
        assert(ss.take(k).drop_last() =~= ss.take(k - 1));
        assert(ss.take(k).last() == ss[k - 1]);
    }
}

/// Builds the stss (sync sample) payload; empty when no sample is a
/// sync sample.
fn build_stss(samples: &[SampleDescriptor]) -> (out: Vec<u8>)
    requires
        samples@.len() < 0x100000000,
    ensures
        out@ == spec_build_stss(sample_views(samples@)),
{
    let ghost ss = sample_views(samples@);
    let mut keyframes: Vec<u32> = Vec::new();
    let mut i: usize = 0;
    proof {
        assert(ss.take(0) =~= Seq::<SpecSample>::empty());
    }
    while i < samples.len()
        invariant
            ss == sample_views(samples@),
            ss.len() < 0x100000000,
            i <= samples@.len(),
            keyframes@.len() == sync_indices(ss.take(i as int)).len(),
            forall|j: int| 0 <= j < keyframes@.len() ==> #[trigger] keyframes@[j] as int
                == sync_indices(ss.take(i as int))[j],
        decreases samples@.len() - i,
    {
        proof {
            lemma_sync_indices_take(ss, i as int + 1);
            lemma_sync_indices_take(ss, i as int);
        }
        let depends_on = (samples[i].flags / 0x1000000) % 4;
        if depends_on == 2 || depends_on == 0 {
            keyframes.push((i + 1) as u32);
        }
        i = i + 1;
    }
    proof {
        assert(ss.take(ss.len() as int) =~= ss);
    }

    let mut out: Vec<u8> = Vec::new();
    if keyframes.len() == 0 {
        proof {
            assert(out@ =~= spec_build_stss(ss));
        }
        return out;
    }
    proof {
        lemma_sync_indices_take(ss, ss.len() as int);
        assert(ss.take(ss.len() as int) =~= ss);
        assert(keyframes@.len() < 0x100000000);
    }
    crate::bytes::push_zeros(&mut out, 4);
    crate::bytes::push_be_u32(&mut out, keyframes.len() as u32);
    let ghost head = out@;
    let ghost ks = sync_indices(ss);
    let mut k: usize = 0;
    while k < keyframes.len()
        invariant
            ks == sync_indices(ss),
            keyframes@.len() == ks.len(),
            forall|j: int| 0 <= j < keyframes@.len() ==> #[trigger] keyframes@[j] as int == ks[j],
            k <= keyframes@.len(),
            head.len() == 8,
            out@.len() == head.len() + 4 * k,
            out@.subrange(0, head.len() as int) == head,
            forall|j: int| head.len() <= j < out@.len() ==> #[trigger] out@[j] == be32_bytes(
                ks[(j - head.len()) / 4],
            )[(j - head.len()) % 4],
        decreases keyframes@.len() - k,
    {
        crate::bytes::push_be_u32(&mut out, keyframes[k]);
        proof {
            assert(out@.subrange(0, head.len() as int) =~= head);
            assert forall|j: int| head.len() <= j < out@.len() implies #[trigger] out@[j]
                == be32_bytes(ks[(j - head.len()) / 4])[(j - head.len()) % 4] by {
                let dj = j - head.len();
                if dj < 4 * k {
                } else {
                    assert(dj / 4 == k as int) by (nonlinear_arith)
                        requires 4 * k <= dj < 4 * (k + 1), k >= 0;
                    assert(out@[j] == be32_bytes(ks[k as int])[dj - 4 * k]);
                    assert(dj % 4 == dj - 4 * k) by (nonlinear_arith)
                        requires 4 * k <= dj < 4 * (k + 1), k >= 0;
                }
            }
        }
        k = k + 1;
    }
    proof {
        assert(out@ =~= spec_build_stss(ss));
    }
    out
}

/// Run-length encoding of a sequence of values, as (count, value)
/// runs: appending a value either extends the last run or opens a new
/// one.
pub open spec fn rle(s: Seq<int>) -> Seq<(int, int)>
    decreases s.len(),
{
    if s.len() == 0 {
        Seq::empty()
    } else {
        let prev = rle(s.drop_last());
        if prev.len() > 0 && prev.last().1 == s.last() {
            prev.drop_last().push(((prev.last().0 + 1, s.last())))
        } else {
            prev.push(((1int, s.last())))
        }
    }
}

/// Every run has a positive count no larger than the sequence length,
/// and there are at most as many runs as values.
pub proof fn lemma_rle_bounds(s: Seq<int>)
    ensures
        rle(s).len() <= s.len(),
        forall|k: int| 0 <= k < rle(s).len() ==> 1 <= (#[trigger] rle(s)[k]).0 <= s.len(),
    decreases s.len(),
{
    if s.len() == 0 {
    } else {
        lemma_rle_bounds(s.drop_last());
        let prev = rle(s.drop_last());
        if prev.len() > 0 && prev.last().1 == s.last() {
            assert(forall|k: int| 0 <= k < prev.len() - 1 ==> rle(s)[k] == prev[k]);
        } else {
            assert(forall|k: int| 0 <= k < prev.len() ==> rle(s)[k] == prev[k]);
        }
    }
}

/// The serialized bytes of a list of (count, value) runs: two 32-bit
/// words per run.
pub open spec fn run_bytes(rs: Seq<(int, int)>) -> Seq<u8> {
    Seq::new(
        (8 * rs.len()) as nat,
        |i: int| if i % 8 < 4 {
            be32_bytes(rs[i / 8].0)[i % 8]
        } else {
            be32_bytes(crate::codecs::as_unsigned32(rs[i / 8].1))[(i % 8) - 4]
        },
    )
}

/// The durations of the samples, as plain values.
pub open spec fn durations_of(ss: Seq<SpecSample>) -> Seq<int> {
    ss.map_values(|s: SpecSample| s.duration)
}

/// The composition offsets of the samples, as plain values.
pub open spec fn comp_offsets_of(ss: Seq<SpecSample>) -> Seq<int> {
    ss.map_values(|s: SpecSample| s.composition_time_offset)
}

/// The serialized stts payload: the run-length encoding of the sample
/// durations.
pub open spec fn spec_build_stts(ss: Seq<SpecSample>) -> Seq<u8> {
    Seq::new(4 as nat, |_i: int| 0u8) + be32_bytes(rle(durations_of(ss)).len() as int)
        + run_bytes(rle(durations_of(ss)))
}

/// The serialized ctts payload: the run-length encoding of the sample
/// composition offsets.
pub open spec fn spec_build_ctts(ss: Seq<SpecSample>) -> Seq<u8> {
    Seq::new(4 as nat, |_i: int| 0u8) + be32_bytes(rle(comp_offsets_of(ss)).len() as int)
        + run_bytes(rle(comp_offsets_of(ss)))
}

/// Computes the run-length encoding of a sequence of 32-bit values.
fn rle_u32(vals: &Vec<u32>) -> (runs: Vec<(u32, u32)>)
    requires
        vals@.len() < 0x100000000,
    ensures
        runs@.len() == rle(vals@.map_values(|v: u32| v as int)).len(),
        forall|k: int| 0 <= k < runs@.len() ==> {
            &&& (#[trigger] runs@[k]).0 as int == rle(vals@.map_values(|v: u32| v as int))[k].0
            &&& runs@[k].1 as int == rle(vals@.map_values(|v: u32| v as int))[k].1
        },
{
    let ghost vs = vals@.map_values(|v: u32| v as int);
    let mut runs: Vec<(u32, u32)> = Vec::new();
    let mut i: usize = 0;
    proof {
        assert(vs.take(0) =~= Seq::<int>::empty());
    }
    while i < vals.len()
        invariant
            vs == vals@.map_values(|v: u32| v as int),
            vs.len() < 0x100000000,
            i <= vals@.len(),
            runs@.len() == rle(vs.take(i as int)).len(),
            forall|k: int| 0 <= k < runs@.len() ==> {
                &&& (#[trigger] runs@[k]).0 as int == rle(vs.take(i as int))[k].0
                &&& runs@[k].1 as int == rle(vs.take(i as int))[k].1
            },
        decreases vals@.len() - i,
    {
        proof {
            assert(vs.take(i as int + 1).drop_last() =~= vs.take(i as int));
            assert(vs.take(i as int + 1).last() == vs[i as int]);
            lemma_rle_bounds(vs.take(i as int));
            lemma_rle_bounds(vs.take(i as int + 1));
        }
        let v = vals[i];
        let n = runs.len();
        if n > 0 && runs[n - 1].1 == v {
            let c = runs[n - 1].0;
            proof {
                assert(runs@[n - 1].0 as int == rle(vs.take(i as int))[n - 1].0);
                assert(rle(vs.take(i as int))[n - 1].0 <= vs.take(i as int).len());
            }
            runs.set(n - 1, (c + 1, v));
        } else {
            runs.push((1, v));
        }
        i = i + 1;
        proof {
            let prev = rle(vs.take(i - 1));
            let now = rle(vs.take(i as int));
            if prev.len() > 0 && prev.last().1 == vs[i - 1] {
                assert(now == prev.drop_last().push(((prev.last().0 + 1, vs[i - 1]))));
                assert(forall|k: int| 0 <= k < now.len() - 1 ==> #[trigger] now[k] == prev[k]);
            } else {
                assert(now == prev.push(((1int, vs[i - 1]))));
                assert(forall|k: int| 0 <= k < now.len() - 1 ==> #[trigger] now[k] == prev[k]);
            }
        }
    }
    proof {
        assert(vs.take(vs.len() as int) =~= vs);
    }
    runs
}

/// Serializes (count, value) runs as two 32-bit words per run.
fn serialize_runs(runs: &Vec<(u32, u32)>, out: &mut Vec<u8>)
    ensures
        final(out)@ == old(out)@ + run_bytes(
            runs@.map_values(|r: (u32, u32)| (r.0 as int, r.1 as int)),
        ),
{
    let ghost rs = runs@.map_values(|r: (u32, u32)| (r.0 as int, r.1 as int));
    let ghost head = old(out)@;
    let mut k: usize = 0;
    while k < runs.len()
        invariant
            rs == runs@.map_values(|r: (u32, u32)| (r.0 as int, r.1 as int)),
            k <= runs@.len(),
            out@.len() == head.len() + 8 * k,
            out@.subrange(0, head.len() as int) == head,
            forall|j: int| head.len() <= j < out@.len() ==> #[trigger] out@[j] == (if (j
                - head.len()) % 8 < 4 {
                be32_bytes(rs[(j - head.len()) / 8].0)[(j - head.len()) % 8]
            } else {
                be32_bytes(crate::codecs::as_unsigned32(rs[(j - head.len()) / 8].1))[((j
                    - head.len()) % 8) - 4]
            }),
        decreases runs@.len() - k,
    {
        crate::bytes::push_be_u32(out, runs[k].0);
        crate::bytes::push_be_u32(out, runs[k].1);
        proof {
            assert(out@.subrange(0, head.len() as int) =~= head);
            assert(crate::codecs::as_unsigned32(rs[k as int].1) == rs[k as int].1);
            assert forall|j: int| head.len() <= j < out@.len() implies #[trigger] out@[j] == (if (
            j - head.len()) % 8 < 4 {
                be32_bytes(rs[(j - head.len()) / 8].0)[(j - head.len()) % 8]
            } else {
                be32_bytes(crate::codecs::as_unsigned32(rs[(j - head.len()) / 8].1))[((j
                    - head.len()) % 8) - 4]
            }) by {
                let dj = j - head.len();
                if dj < 8 * k {
                } else {
                    assert(dj / 8 == k as int) by (nonlinear_arith)
                        requires 8 * k <= dj < 8 * (k + 1), k >= 0;
                    assert(dj % 8 == dj - 8 * k) by (nonlinear_arith)
                        requires 8 * k <= dj < 8 * (k + 1), k >= 0;
                    if dj - 8 * k < 4 {
                        assert(out@[j] == be32_bytes(rs[k as int].0)[dj - 8 * k]);
                    } else {
                        assert(out@[j] == be32_bytes(rs[k as int].1)[dj - 8 * k - 4]);
                    }
                }
            }
        }
        k = k + 1;
    }
    proof {
        assert(out@ =~= head + run_bytes(rs));
    }
}

/// Builds the stts (decoding time to sample) payload by run-length
/// encoding consecutive equal sample durations.
fn build_stts(samples: &[SampleDescriptor]) -> (out: Vec<u8>)
    requires
        samples@.len() < 0x100000000,
    ensures
        out@ == spec_build_stts(sample_views(samples@)),
{
    let ghost ss = sample_views(samples@);
    let mut durs: Vec<u32> = Vec::new();
    let mut i: usize = 0;
    while i < samples.len()
        invariant
            ss == sample_views(samples@),
            i <= samples@.len(),
            durs@.len() == i,
            forall|j: int| 0 <= j < i ==> #[trigger] durs@[j] == ss[j].duration,
        decreases samples@.len() - i,
    {
        durs.push(samples[i].duration);
        i = i + 1;
    }
    proof {
        assert(durs@.map_values(|v: u32| v as int) =~= durations_of(ss));
        lemma_rle_bounds(durations_of(ss));
    }
    let runs = rle_u32(&durs);
    let mut out: Vec<u8> = Vec::new();
    crate::bytes::push_zeros(&mut out, 4);
    crate::bytes::push_be_u32(&mut out, runs.len() as u32);
    serialize_runs(&runs, &mut out);
    proof {
        assert(runs@.map_values(|r: (u32, u32)| (r.0 as int, r.1 as int)) =~= rle(
            durations_of(ss),
        ));
        assert(out@ =~= spec_build_stts(ss));
    }
    out
}

/// Builds the ctts (composition time to sample) payload by run-length
/// encoding consecutive equal composition offsets.
fn build_ctts(samples: &[SampleDescriptor]) -> (out: Vec<u8>)
    requires
        samples@.len() < 0x100000000,
    ensures
        out@ == spec_build_ctts(sample_views(samples@)),
{
    let ghost ss = sample_views(samples@);
    let mut offs: Vec<u32> = Vec::new();
    let mut i: usize = 0;
    while i < samples.len()
        invariant
            ss == sample_views(samples@),
            i <= samples@.len(),
            offs@.len() == i,
            forall|j: int| 0 <= j < i ==> #[trigger] offs@[j] as int == crate::codecs::as_unsigned32(
                ss[j].composition_time_offset,
            ),
        decreases samples@.len() - i,
    {
        offs.push(crate::codecs::i32_to_u32(samples[i].composition_time_offset));
        i = i + 1;
    }
    let runs = rle_u32(&offs);
    let mut out: Vec<u8> = Vec::new();
    crate::bytes::push_zeros(&mut out, 4);
    crate::bytes::push_be_u32(&mut out, runs.len() as u32);
    serialize_runs(&runs, &mut out);
    proof {
        lemma_rle_bounds(offs@.map_values(|v: u32| v as int));
        lemma_rle_map_shift(comp_offsets_of(ss), offs@.map_values(|v: u32| v as int));
        assert(out@ =~= spec_build_ctts(ss));
    }
    out
}

/// Two sequences whose values agree up to the unsigned 32-bit
/// reinterpretation have run structures that agree the same way.
proof fn lemma_rle_map_shift(a: Seq<int>, b: Seq<int>)
    requires
        a.len() == b.len(),
        forall|i: int| 0 <= i < a.len() ==> crate::codecs::as_unsigned32(#[trigger] a[i]) == b[i],
        forall|i: int| 0 <= i < a.len() ==> -0x80000000 <= #[trigger] a[i] < 0x80000000,
    ensures
        rle(a).len() == rle(b).len(),
        forall|k: int| 0 <= k < rle(a).len() ==> {
            &&& (#[trigger] rle(a)[k]).0 == rle(b)[k].0
            &&& crate::codecs::as_unsigned32(rle(a)[k].1) == rle(b)[k].1
            &&& -0x80000000 <= rle(a)[k].1 < 0x80000000
        },
    decreases a.len(),
{
    if a.len() == 0 {
    } else {
        assert(a.drop_last().len() == b.drop_last().len());
        lemma_rle_map_shift(a.drop_last(), b.drop_last());
        let pa = rle(a.drop_last());
        let pb = rle(b.drop_last());
        assert(crate::codecs::as_unsigned32(a.last()) == b.last());
        assert(-0x80000000 <= a.last() < 0x80000000);
        let cond_a = pa.len() > 0 && pa.last().1 == a.last();
        let cond_b = pb.len() > 0 && pb.last().1 == b.last();
        if pa.len() > 0 {
            assert(crate::codecs::as_unsigned32(pa.last().1) == pb.last().1);
            assert(-0x80000000 <= pa.last().1 < 0x80000000);
            // as_unsigned32 is injective on the signed 32-bit range.
            assert(cond_a == cond_b);
        }
        if cond_a {
            assert(rle(a) == pa.drop_last().push(((pa.last().0 + 1, a.last()))));
            assert(rle(b) == pb.drop_last().push(((pb.last().0 + 1, b.last()))));
            assert(forall|k: int| 0 <= k < rle(a).len() - 1 ==> #[trigger] rle(a)[k] == pa[k]);
            assert(forall|k: int| 0 <= k < rle(b).len() - 1 ==> #[trigger] rle(b)[k] == pb[k]);
        } else {
            assert(rle(a) == pa.push(((1int, a.last()))));
            assert(rle(b) == pb.push(((1int, b.last()))));
            assert(forall|k: int| 0 <= k < rle(a).len() - 1 ==> #[trigger] rle(a)[k] == pa[k]);
            assert(forall|k: int| 0 <= k < rle(b).len() - 1 ==> #[trigger] rle(b)[k] == pb[k]);
        }
    }
}

/// The first tkhd child wide enough to carry version and track id.
pub open spec fn first_tkhd12(cs: Seq<SpecBox>) -> Option<SpecBox>
    decreases cs.len(),
{
    if cs.len() == 0 {
        None
    } else if cs[0].typ == TKHD as int && cs[0].payload.len() >= 12 {
        Some(cs[0])
    } else {
        first_tkhd12(cs.drop_first())
    }
}

/// The track id read leniently from a trak's children: the first wide
/// tkhd's id field at its version-dependent offset, zero when absent
/// or short.
pub open spec fn spec_lenient_tid(cs: Seq<SpecBox>) -> int {
    match first_tkhd12(cs) {
        None => 0,
        Some(t) => {
            let off: int = if t.payload[0] == 1 {
                20
            } else {
                12
            };
            if t.payload.len() >= off + 4 {
                be32(t.payload, off)
            } else {
                0
            }
        },
    }
}

/// Reads the lenient track id from parsed trak children.
fn moov_trak_id(boxes: &[Mp4Box]) -> (r: u32)
    ensures
        r == spec_lenient_tid(crate::boxes::box_views(boxes@)),
{
    let ghost cs = crate::boxes::box_views(boxes@);
    let mut i: usize = 0;
    proof {
        assert(cs.skip(0) =~= cs);
    }
    while i < boxes.len()
        invariant
            cs == crate::boxes::box_views(boxes@),
            i <= boxes@.len(),
            first_tkhd12(cs) == first_tkhd12(cs.skip(i as int)),
        decreases boxes@.len() - i,
    {
        proof {
            assert(cs.skip(i as int)[0] == cs[i as int]);
            assert(cs.skip(i as int).drop_first() =~= cs.skip(i as int + 1));
        }
        let b = &boxes[i];
        if crate::boxes::box_type_is(b, TKHD) && b.data.len() >= 12 {
            let off: usize = if b.data[0] == 1 {
                20
            } else {
                12
            };
            if b.data.len() >= off + 4 {
                return crate::bytes::read_be_u32(b.data.as_slice(), off);
            } else {
                return 0;
            }
        }
        i = i + 1;
    }
    proof {
        assert(cs.skip(boxes@.len() as int) =~= Seq::<SpecBox>::empty());
    }
    0
}

/// The timescale read leniently from an mdhd payload found through
/// mdia/mdhd, with 1000 as the fallback.
pub open spec fn spec_trak_timescale(p: Seq<u8>) -> Result<int, Mp4Error> {
    match crate::boxes::spec_find_path(p, seq![MDIA as int, MDHD as int]) {
        Err(e) => Err(e),
        Ok(None) => Ok(1000),
        Ok(Some(mdhd)) => {
            let q = mdhd.payload;
            if q.len() >= 20 {
                let off: int = if q[0] == 1 {
                    20
                } else {
                    12
                };
                if q.len() >= off + 4 {
                    Ok(be32(q, off))
                } else {
                    Ok(1000)
                }
            } else {
                Ok(1000)
            }
        },
    }
}

/// The cached codec configuration: the stsd payload found through
/// mdia/minf/stbl/stsd, empty when absent.
pub open spec fn spec_trak_codec(p: Seq<u8>) -> Result<Seq<u8>, Mp4Error> {
    match crate::boxes::spec_find_path(
        p,
        seq![MDIA as int, MINF as int, STBL as int, STSD as int],
    ) {
        Err(e) => Err(e),
        Ok(None) => Ok(Seq::empty()),
        Ok(Some(stsd)) => Ok(stsd.payload),
    }
}

/// The fresh (sample-free) track record a trak contributes.
#[verifier::opaque]
pub open spec fn spec_new_track(p: Seq<u8>) -> Result<SpecTrack, Mp4Error> {
    match crate::boxes::spec_parse_boxes(p, 0) {
        Err(e) => Err(e),
        Ok(cs) => match spec_trak_timescale(p) {
            Err(e) => Err(e),
            Ok(ts) => match spec_trak_codec(p) {
                Err(e) => Err(e),
                Ok(codec) => Ok(SpecTrack {
                    track_id: spec_lenient_tid(cs),
                    samples: Seq::empty(),
                    mdat: Seq::empty(),
                    timescale: ts,
                    codec,
                }),
            },
        },
    }
}

/// Builds the fresh track record for one trak payload.
fn new_track(p: &[u8]) -> (r: Result<TrackFragments, Mp4Error>)
    ensures
        match r {
            Ok(t) => spec_new_track(p@) == Ok::<SpecTrack, Mp4Error>(t@),
            Err(e) => spec_new_track(p@) == Err::<SpecTrack, Mp4Error>(e),
        },
{
    proof {
        reveal(spec_new_track);
    }
    let boxes = match crate::boxes::parse_container_box(p) {
        Ok(bs) => bs,
        Err(e) => {
            return Err(e);
        },
    };
    let track_id = moov_trak_id(boxes.as_slice());

    let mdia_tag: [u8; 4] = [0x6d, 0x64, 0x69, 0x61];
    let mdhd_tag: [u8; 4] = [0x6d, 0x64, 0x68, 0x64];
    let minf_tag: [u8; 4] = [0x6d, 0x69, 0x6e, 0x66];
    let stbl_tag: [u8; 4] = [0x73, 0x74, 0x62, 0x6c];
    let stsd_tag: [u8; 4] = [0x73, 0x74, 0x73, 0x64];
    proof {
        assert(be32(mdia_tag@, 0) == MDIA as int);
        assert(be32(mdhd_tag@, 0) == MDHD as int);
        assert(be32(minf_tag@, 0) == MINF as int);
        assert(be32(stbl_tag@, 0) == STBL as int);
        assert(be32(stsd_tag@, 0) == STSD as int);
    }

    let ts_path: [&[u8; 4]; 2] = [&mdia_tag, &mdhd_tag];
    proof {
        assert(crate::boxes::path_views(ts_path@) =~= seq![MDIA as int, MDHD as int]);
    }
    let timescale: u32 = match crate::boxes::find_box_path(p, ts_path.as_slice()) {
        Err(e) => {
            return Err(e);
        },
        Ok(None) => 1000,
        Ok(Some(mdhd)) => {
            if mdhd.data.len() >= 20 {
                let off: usize = if mdhd.data[0] == 1 {
                    20
                } else {
                    12
                };
                if mdhd.data.len() >= off + 4 {
                    crate::bytes::read_be_u32(mdhd.data.as_slice(), off)
                } else {
                    1000
                }
            } else {
                1000
            }
        },
    };

    let codec_path: [&[u8; 4]; 4] = [&mdia_tag, &minf_tag, &stbl_tag, &stsd_tag];
    proof {
        assert(crate::boxes::path_views(codec_path@) =~= seq![
            MDIA as int,
            MINF as int,
            STBL as int,
            STSD as int,
        ]);
    }
    let codec_info: Vec<u8> = match crate::boxes::find_box_path(p, codec_path.as_slice()) {
        Err(e) => {
            return Err(e);
        },
        Ok(None) => Vec::new(),
        Ok(Some(stsd)) => stsd.data,
    };

    let t = TrackFragments {
        track_id,
        samples: Vec::new(),
        mdat_data: Vec::new(),
        timescale,
        codec_info,
    };
    proof {
        assert(sample_views(t.samples@) =~= Seq::<SpecSample>::empty());
        assert(t.mdat_data@ =~= Seq::<u8>::empty());
        match spec_trak_codec(p@) {
            Ok(c) => {
                assert(t.codec_info@ =~= c);
            },
            Err(_) => {},
        }
    }
    Ok(t)
}

/// The track records of a moov's traks, in trak order.
pub open spec fn spec_moov_tracks(cs: Seq<SpecBox>) -> Result<Seq<SpecTrack>, Mp4Error>
    decreases cs.len(),
{
    if cs.len() == 0 {
        Ok(Seq::empty())
    } else {
        let head: Result<Seq<SpecTrack>, Mp4Error> = if cs[0].typ == TRAK as int {
            match spec_new_track(cs[0].payload) {
                Err(e) => Err(e),
                Ok(t) => Ok(seq![t]),
            }
        } else {
            Ok(Seq::empty())
        };
        match head {
            Err(e) => Err(e),
            Ok(h) => match spec_moov_tracks(cs.drop_first()) {
                Err(e) => Err(e),
                Ok(rest) => Ok(h + rest),
            },
        }
    }
}

/// The track records described by a moov payload.
#[verifier::opaque]
pub open spec fn spec_tracks_of_moov(p: Seq<u8>) -> Result<Seq<SpecTrack>, Mp4Error> {
    match crate::boxes::spec_parse_boxes(p, 0) {
        Err(e) => Err(e),
        Ok(cs) => spec_moov_tracks(cs),
    }
}

/// Builds one fresh track record per trak in the moov payload, as
/// [`spec_tracks_of_moov`] describes.
fn extract_track_info_from_moov(moov_data: &[u8]) -> (r: Result<Vec<TrackFragments>, Mp4Error>)
    ensures
        match r {
            Ok(ts) => spec_tracks_of_moov(moov_data@) == Ok::<Seq<SpecTrack>, Mp4Error>(
                track_views(ts@),
            ),
            Err(e) => spec_tracks_of_moov(moov_data@) == Err::<Seq<SpecTrack>, Mp4Error>(e),
        },
{
    proof {
        reveal(spec_tracks_of_moov);
    }
    let boxes = match crate::boxes::parse_container_box(moov_data) {
        Ok(bs) => bs,
        Err(e) => {
            return Err(e);
        },
    };
    let ghost cs = crate::boxes::box_views(boxes@);
    let mut tracks: Vec<TrackFragments> = Vec::new();
    let mut i: usize = 0;
    proof {
        assert(cs.skip(0) =~= cs);
        match spec_moov_tracks(cs) {
            Ok(rest) => {
                assert(track_views(tracks@) + rest =~= rest);
            },
            Err(_) => {},
        }
    }
    while i < boxes.len()
        invariant
            cs == crate::boxes::box_views(boxes@),
            i <= boxes@.len(),
            spec_tracks_of_moov(moov_data@) == spec_moov_tracks(cs),
            spec_moov_tracks(cs) == match spec_moov_tracks(cs.skip(i as int)) {
                Ok(rest) => Ok::<Seq<SpecTrack>, Mp4Error>(track_views(tracks@) + rest),
                Err(e) => Err::<Seq<SpecTrack>, Mp4Error>(e),
            },
        decreases boxes@.len() - i,
    {
        proof {
            assert(cs.skip(i as int)[0] == cs[i as int]);
            assert(cs.skip(i as int).drop_first() =~= cs.skip(i as int + 1));
        }
        let ghost prev = track_views(tracks@);
        let b = &boxes[i];
        if crate::boxes::box_type_is(b, TRAK) {
            match new_track(b.data.as_slice()) {
                Ok(t) => {
                    let ghost gt = t@;
                    tracks.push(t);
                    proof {
                        assert(track_views(tracks@) =~= prev.push(gt));
                        match spec_moov_tracks(cs.skip(i as int + 1)) {
                            Ok(rest) => {
                                assert(prev + (seq![gt] + rest) =~= track_views(tracks@) + rest);
                            },
                            Err(_) => {},
                        }
                    }
                },
                Err(e) => {
                    return Err(e);
                },
            }
        } else {
            proof {
                match spec_moov_tracks(cs.skip(i as int + 1)) {
                    Ok(rest) => {
                        assert(prev + (Seq::<SpecTrack>::empty() + rest) =~= prev + rest);
                    },
                    Err(_) => {},
                }
            }
        }
        i = i + 1;
    }
    proof {
        assert(cs.skip(boxes@.len() as int) =~= Seq::<SpecBox>::empty());
        match spec_moov_tracks(cs) {
            Ok(_) => {
                assert(track_views(tracks@) + Seq::<SpecTrack>::empty() =~= track_views(tracks@));
            },
            Err(_) => {},
        }
    }
    Ok(tracks)
}

/// The bytes gathered for a run of samples: each sample's span is
/// sliced from the mdat payload in order, advancing the cursor by the
/// declared size. A sample whose span falls outside the payload is an
/// error: no best-effort output is produced, so a successful copy
/// holds exactly the sum of the declared sizes.
pub open spec fn spec_copy_samples(ss: Seq<SpecSample>, mdat: Seq<u8>, cur: int) -> Result<
    Seq<u8>,
    Mp4Error,
>
    decreases ss.len(),
{
    if ss.len() == 0 {
        Ok(Seq::empty())
    } else {
        let sz = ss[0].size;
        if cur >= 0 && cur + sz <= mdat.len() {
            match spec_copy_samples(ss.drop_first(), mdat, cur + sz) {
                Err(e) => Err(e),
                Ok(rest) => Ok(mdat.subrange(cur, cur + sz) + rest),
            }
        } else {
            Err(Mp4Error::TruncatedData)
        }
    }
}

/// A successful sample copy is exactly as long as the sum of the
/// declared sample sizes: the collector never gathers fewer bytes than
/// the descriptors it appends account for.
pub proof fn lemma_copy_samples_len(ss: Seq<SpecSample>, mdat: Seq<u8>, cur: int)
    requires
        forall|i: int| 0 <= i < ss.len() ==> 0 <= (#[trigger] ss[i]).size,
    ensures
        spec_copy_samples(ss, mdat, cur) matches Ok(c) ==> c.len() == sum_sizes(
            ss,
            ss.len() as int,
        ),
    decreases ss.len(),
{
    if ss.len() == 0 {
        assert(sum_sizes(ss, 0) == 0);
    } else {
        let sz = ss[0].size;
        if cur >= 0 && cur + sz <= mdat.len() {
            lemma_copy_samples_len(ss.drop_first(), mdat, cur + sz);
            lemma_sum_sizes_shift(ss, ss.len() as int);
            match spec_copy_samples(ss.drop_first(), mdat, cur + sz) {
                Ok(rest) => {
                    assert(spec_copy_samples(ss, mdat, cur) == Ok::<Seq<u8>, Mp4Error>(
                        mdat.subrange(cur, cur + sz) + rest,
                    ));
                    assert(rest.len() == sum_sizes(
                        ss.drop_first(),
                        ss.drop_first().len() as int,
                    ));
                },
                Err(_) => {},
            }
        }
    }
}

/// Unrolls the size sum from the front: the first sample's size plus
/// the sum over the rest.
proof fn lemma_sum_sizes_shift(ss: Seq<SpecSample>, k: int)
    requires
        1 <= k <= ss.len(),
    ensures
        sum_sizes(ss, k) == ss[0].size + sum_sizes(ss.drop_first(), k - 1),
    decreases k,
{
    if k == 1 {
        assert(sum_sizes(ss, 1) == sum_sizes(ss, 0) + ss[0].size);
        assert(sum_sizes(ss, 0) == 0);
        assert(sum_sizes(ss.drop_first(), 0) == 0);
    } else {
        lemma_sum_sizes_shift(ss, k - 1);
        assert(ss.drop_first()[k - 2] == ss[k - 1]);
        assert(sum_sizes(ss, k) == sum_sizes(ss, k - 1) + ss[k - 1].size);
        assert(sum_sizes(ss.drop_first(), k - 1) == sum_sizes(ss.drop_first(), k - 2)
            + ss.drop_first()[k - 2].size);
    }
}

/// The position of the first track with the given id.
pub open spec fn find_track_from(ts: Seq<SpecTrack>, tid: int, i: int) -> Option<int>
    decreases ts.len() - i,
{
    if i < 0 || i >= ts.len() {
        None
    } else if ts[i].track_id == tid {
        Some(i)
    } else {
        find_track_from(ts, tid, i + 1)
    }
}

/// Finds the first track with the given id.
fn find_track_idx(tracks: &Vec<TrackFragments>, tid: u32) -> (r: Option<usize>)
    ensures
        match r {
            Some(p) => {
                &&& find_track_from(track_views(tracks@), tid as int, 0) == Some(p as int)
                &&& p < tracks@.len()
            },
            None => find_track_from(track_views(tracks@), tid as int, 0) is None,
        },
{
    let ghost ts = track_views(tracks@);
    let mut i: usize = 0;
    while i < tracks.len()
        invariant
            ts == track_views(tracks@),
            i <= tracks@.len(),
            find_track_from(ts, tid as int, 0) == find_track_from(ts, tid as int, i as int),
        decreases tracks@.len() - i,
    {
        if tracks[i].track_id == tid {
            return Some(i);
        }
        i = i + 1;
    }
    None
}

/// How one trun changes the accumulated tracks: its samples are
/// appended to the matching track, and, when the trun declares a data
/// offset, the sample bytes addressed relative to the moof start are
/// copied out of the paired mdat payload. A sample span outside the
/// payload makes the whole trun an error.
pub open spec fn spec_trun_apply(
    ts: Seq<SpecTrack>,
    tid: int,
    samples: Seq<SpecSample>,
    doff: Option<int>,
    mdat: Seq<u8>,
    moof_off: int,
    mdat_start: int,
) -> Result<Seq<SpecTrack>, Mp4Error> {
    match find_track_from(ts, tid, 0) {
        None => Ok(ts),
        Some(pos) => {
            let t = ts[pos];
            let copied = match doff {
                Some(d) => spec_copy_samples(samples, mdat, sat_sub(moof_off + d, mdat_start)),
                None => Ok(Seq::empty()),
            };
            match copied {
                Err(e) => Err(e),
                Ok(c) => Ok(
                    ts.update(
                        pos,
                        SpecTrack {
                            track_id: t.track_id,
                            samples: t.samples + samples,
                            mdat: t.mdat + c,
                            timescale: t.timescale,
                            codec: t.codec,
                        },
                    ),
                ),
            }
        },
    }
}

/// How one traf changes the accumulated tracks: tfhd supplies the
/// track id and per-sample defaults, then every trun is applied in
/// order.
pub open spec fn spec_traf_trun_fold(
    cs: Seq<SpecBox>,
    ts: Seq<SpecTrack>,
    tid: int,
    dd: int,
    ds: int,
    df: int,
    mdat: Seq<u8>,
    moof_off: int,
    mdat_start: int,
) -> Result<Seq<SpecTrack>, Mp4Error>
    decreases cs.len(),
{
    if cs.len() == 0 {
        Ok(ts)
    } else {
        let step: Result<Seq<SpecTrack>, Mp4Error> = if cs[0].typ == TRUN as int {
            match crate::codecs::spec_trun_samples(cs[0].payload, dd, ds, df) {
                Err(e) => Err(e),
                Ok((samples, doff)) => spec_trun_apply(
                    ts,
                    tid,
                    samples,
                    doff,
                    mdat,
                    moof_off,
                    mdat_start,
                ),
            }
        } else {
            Ok(ts)
        };
        match step {
            Err(e) => Err(e),
            Ok(ts1) => spec_traf_trun_fold(
                cs.drop_first(),
                ts1,
                tid,
                dd,
                ds,
                df,
                mdat,
                moof_off,
                mdat_start,
            ),
        }
    }
}

#[verifier::opaque]
pub open spec fn spec_traf_collect(
    tp: Seq<u8>,
    ts: Seq<SpecTrack>,
    mdat: Seq<u8>,
    moof_off: int,
    mdat_start: int,
) -> Result<Seq<SpecTrack>, Mp4Error> {
    match crate::boxes::spec_parse_boxes(tp, 0) {
        Err(e) => Err(e),
        Ok(cs) => {
            let hdr: Result<(int, int, int, int), Mp4Error> = match crate::reset::first_wide_tfhd(
                cs,
            ) {
                None => Ok((0, 0, 0, 0)),
                Some(t) => match crate::codecs::spec_parse_tfhd(t.payload) {
                    Err(e) => Err(e),
                    Ok(h) => Ok((h.track_id, h.default_duration, h.default_size, h.default_flags)),
                },
            };
            match hdr {
                Err(e) => Err(e),
                Ok((tid, dd, ds, df)) => spec_traf_trun_fold(
                    cs,
                    ts,
                    tid,
                    dd,
                    ds,
                    df,
                    mdat,
                    moof_off,
                    mdat_start,
                ),
            }
        },
    }
}

/// How one moof/mdat pair changes the accumulated tracks: every traf
/// is applied in order.
pub open spec fn spec_moof_traf_fold(
    cs: Seq<SpecBox>,
    ts: Seq<SpecTrack>,
    mdat: Seq<u8>,
    moof_off: int,
    mdat_start: int,
) -> Result<Seq<SpecTrack>, Mp4Error>
    decreases cs.len(),
{
    if cs.len() == 0 {
        Ok(ts)
    } else {
        let step: Result<Seq<SpecTrack>, Mp4Error> = if cs[0].typ == TRAF as int {
            spec_traf_collect(cs[0].payload, ts, mdat, moof_off, mdat_start)
        } else {
            Ok(ts)
        };
        match step {
            Err(e) => Err(e),
            Ok(ts1) => spec_moof_traf_fold(cs.drop_first(), ts1, mdat, moof_off, mdat_start),
        }
    }
}

#[verifier::opaque]
pub open spec fn spec_moof_collect(
    mp: Seq<u8>,
    ts: Seq<SpecTrack>,
    mdat: Seq<u8>,
    moof_off: int,
    mdat_start: int,
) -> Result<Seq<SpecTrack>, Mp4Error> {
    match crate::boxes::spec_parse_boxes(mp, 0) {
        Err(e) => Err(e),
        Ok(cs) => spec_moof_traf_fold(cs, ts, mdat, moof_off, mdat_start),
    }
}

/// Walks the top-level entries, pairing each moof with the mdat that
/// follows it and applying the pair to the accumulated tracks.
pub open spec fn spec_collect_fold(
    es: Seq<SpecBoxInfo>,
    s: Seq<u8>,
    ts: Seq<SpecTrack>,
    pending: Option<(Seq<u8>, int)>,
) -> Result<Seq<SpecTrack>, Mp4Error>
    decreases es.len(),
{
    if es.len() == 0 {
        Ok(ts)
    } else {
        match es[0] {
            SpecBoxInfo::Small(b) => if b.typ == MOOF as int {
                spec_collect_fold(es.drop_first(), s, ts, Some((b.payload, b.offset)))
            } else {
                spec_collect_fold(es.drop_first(), s, ts, pending)
            },
            SpecBoxInfo::Mdat(m) => match pending {
                None => spec_collect_fold(es.drop_first(), s, ts, None),
                Some((mp, mo)) => {
                    let mdat = s.subrange(m.payload_offset, m.payload_offset + m.payload_size);
                    match spec_moof_collect(mp, ts, mdat, mo, m.payload_offset) {
                        Err(e) => Err(e),
                        Ok(ts1) => spec_collect_fold(es.drop_first(), s, ts1, None),
                    }
                },
            },
        }
    }
}

/// Finds the first tfhd child wide enough to carry a track id.
fn find_wide_tfhd<'a>(boxes: &'a [Mp4Box]) -> (r: Option<&'a Mp4Box>)
    ensures
        match r {
            Some(b) => crate::reset::first_wide_tfhd(crate::boxes::box_views(boxes@)) == Some(b@),
            None => crate::reset::first_wide_tfhd(crate::boxes::box_views(boxes@)) is None,
        },
{
    let ghost cs = crate::boxes::box_views(boxes@);
    let mut i: usize = 0;
    proof {
        assert(cs.skip(0) =~= cs);
    }
    while i < boxes.len()
        invariant
            cs == crate::boxes::box_views(boxes@),
            i <= boxes@.len(),
            crate::reset::first_wide_tfhd(cs) == crate::reset::first_wide_tfhd(cs.skip(i as int)),
        decreases boxes@.len() - i,
    {
        proof {
            assert(cs.skip(i as int)[0] == cs[i as int]);
            assert(cs.skip(i as int).drop_first() =~= cs.skip(i as int + 1));
        }
        let b = &boxes[i];
        if crate::boxes::box_type_is(b, TFHD) && b.data.len() >= 8 {
            return Some(b);
        }
        i = i + 1;
    }
    proof {
        assert(cs.skip(boxes@.len() as int) =~= Seq::<SpecBox>::empty());
    }
    None
}

/// Appends to `out` the bytes of every sample, sliced from the mdat
/// payload with the cursor walking forward, as [`spec_copy_samples`]
/// describes; a sample span outside the payload is an error.
fn append_copied(out: &mut Vec<u8>, samples: &Vec<SampleDescriptor>, mdat: &[u8], rel: u128) -> (r:
    Result<(), Mp4Error>)
    requires
        rel < 0x20000000000000000,
    ensures
        match r {
            Ok(()) => match spec_copy_samples(sample_views(samples@), mdat@, rel as int) {
                Ok(c) => final(out)@ == old(out)@ + c,
                Err(_) => false,
            },
            Err(e) => spec_copy_samples(sample_views(samples@), mdat@, rel as int) == Err::<
                Seq<u8>,
                Mp4Error,
            >(e),
        },
{
    let ghost ss = sample_views(samples@);
    let mut cur: u128 = rel;
    let mut i: usize = 0;
    proof {
        assert(ss.skip(0) =~= ss);
    }
    while i < samples.len()
        invariant
            ss == sample_views(samples@),
            i <= samples@.len(),
            cur <= 0x20000000000000000 + 0x100000000 * i,
            spec_copy_samples(ss, mdat@, rel as int) == (match spec_copy_samples(
                ss.skip(i as int),
                mdat@,
                cur as int,
            ) {
                Ok(rest) => Ok::<Seq<u8>, Mp4Error>(out@.skip(old(out)@.len() as int) + rest),
                Err(e) => Err::<Seq<u8>, Mp4Error>(e),
            }),
            out@.len() >= old(out)@.len(),
            out@.subrange(0, old(out)@.len() as int) == old(out)@,
        decreases samples@.len() - i,
    {
        proof {
            assert(ss.skip(i as int)[0] == ss[i as int]);
            assert(ss.skip(i as int).drop_first() =~= ss.skip(i as int + 1));
        }
        let ghost prev = out@;
        let sz = samples[i].size as u128;
        if cur + sz > mdat.len() as u128 {
            return Err(Mp4Error::TruncatedData);
        }
        let a = cur as usize;
        let b = (cur + sz) as usize;
        let piece = vstd::slice::slice_subrange(mdat, a, b);
        crate::bytes::push_bytes(out, piece);
        cur = cur + sz;
        proof {
            assert(out@.subrange(0, old(out)@.len() as int) =~= old(out)@);
            assert(out@.skip(old(out)@.len() as int) =~= prev.skip(old(out)@.len() as int)
                + mdat@.subrange(a as int, b as int));
            match spec_copy_samples(ss.skip(i as int + 1), mdat@, cur as int) {
                Ok(rest) => {
                    assert(prev.skip(old(out)@.len() as int) + (mdat@.subrange(a as int, b as int)
                        + rest) =~= out@.skip(old(out)@.len() as int) + rest);
                },
                Err(_) => {},
            }
        }
        i = i + 1;
    }
    proof {
        assert(ss.skip(ss.len() as int) =~= Seq::<SpecSample>::empty());
        assert(spec_copy_samples(ss.skip(ss.len() as int), mdat@, cur as int) == Ok::<
            Seq<u8>,
            Mp4Error,
        >(Seq::<u8>::empty()));
        assert(out@.skip(old(out)@.len() as int) + Seq::<u8>::empty() =~= out@.skip(
            old(out)@.len() as int,
        ));
        assert(out@ =~= old(out)@ + out@.skip(old(out)@.len() as int));
    }
    Ok(())
}

/// Applies one trun's samples to the matching track, as
/// [`spec_trun_apply`] describes; a sample span outside the paired
/// mdat payload is an error.
fn apply_trun(
    tracks: &mut Vec<TrackFragments>,
    tid: u32,
    samples: &Vec<SampleDescriptor>,
    doff: Option<i32>,
    mdat: &[u8],
    moof_off: usize,
    mdat_start: usize,
) -> (r: Result<(), Mp4Error>)
    ensures
        match r {
            Ok(()) => spec_trun_apply(
                track_views(old(tracks)@),
                tid as int,
                sample_views(samples@),
                match doff {
                    Some(d) => Some(d as int),
                    None => None,
                },
                mdat@,
                moof_off as int,
                mdat_start as int,
            ) == Ok::<Seq<SpecTrack>, Mp4Error>(track_views(final(tracks)@)),
            Err(e) => spec_trun_apply(
                track_views(old(tracks)@),
                tid as int,
                sample_views(samples@),
                match doff {
                    Some(d) => Some(d as int),
                    None => None,
                },
                mdat@,
                moof_off as int,
                mdat_start as int,
            ) == Err::<Seq<SpecTrack>, Mp4Error>(e),
        },
{
    let ghost ts0 = track_views(tracks@);
    let pos = match find_track_idx(tracks, tid) {
        None => {
            return Ok(());
        },
        Some(p) => p,
    };
    let mut t = tracks.remove(pos);
    let ghost gt = t@;
    match doff {
        Some(d) => {
            let abs: i128 = moof_off as i128 + d as i128;
            let rel: u128 = if abs >= mdat_start as i128 {
                (abs - mdat_start as i128) as u128
            } else {
                0
            };
            proof {
                assert(rel as int == sat_sub(moof_off as int + d as int, mdat_start as int));
            }
            match append_copied(&mut t.mdat_data, samples, mdat, rel) {
                Ok(()) => {},
                Err(e) => {
                    return Err(e);
                },
            }
        },
        None => {},
    }
    let mut k: usize = 0;
    let ghost base_samples = t.samples@;
    let ghost mdat_now = t.mdat_data@;
    let ghost tid_now = t.track_id;
    let ghost ts_now = t.timescale;
    let ghost codec_now = t.codec_info@;
    while k < samples.len()
        invariant
            k <= samples@.len(),
            t.samples@ == base_samples + samples@.subrange(0, k as int),
            t.mdat_data@ == mdat_now,
            t.track_id == tid_now,
            t.timescale == ts_now,
            t.codec_info@ == codec_now,
        decreases samples@.len() - k,
    {
        t.samples.push(samples[k]);
        k = k + 1;
        proof {
            assert(t.samples@ =~= base_samples + samples@.subrange(0, k as int));
        }
    }
    proof {
        assert(samples@.subrange(0, samples@.len() as int) =~= samples@);
        assert(sample_views(base_samples + samples@) =~= sample_views(base_samples)
            + sample_views(samples@));
    }
    let ghost gt2 = t@;
    tracks.insert(pos, t);
    proof {
        assert(tracks@ =~= old(tracks)@.remove(pos as int).insert(pos as int, tracks@[pos as int]));
        assert(track_views(tracks@) =~= ts0.update(pos as int, gt2));
        let copied_r = match (match doff {
            Some(d) => Some(d as int),
            None => None::<int>,
        }) {
            Some(d) => spec_copy_samples(
                sample_views(samples@),
                mdat@,
                sat_sub(moof_off + d, mdat_start as int),
            ),
            None => Ok::<Seq<u8>, Mp4Error>(Seq::<u8>::empty()),
        };
        let copied = copied_r->Ok_0;
        assert(copied_r is Ok);
        assert(gt2.samples =~= gt.samples + sample_views(samples@));
        assert(gt2.mdat =~= gt.mdat + copied);
        assert(gt2 == SpecTrack {
            track_id: gt.track_id,
            samples: gt.samples + sample_views(samples@),
            mdat: gt.mdat + copied,
            timescale: gt.timescale,
            codec: gt.codec,
        });
        assert(spec_trun_apply(
            ts0,
            tid as int,
            sample_views(samples@),
            match doff {
                Some(d) => Some(d as int),
                None => None,
            },
            mdat@,
            moof_off as int,
            mdat_start as int,
        ) == Ok::<Seq<SpecTrack>, Mp4Error>(ts0.update(pos as int, gt2)));
        assert(track_views(tracks@) =~= ts0.update(pos as int, gt2));
    }
    Ok(())
}

/// Applies one traf to the tracks, as [`spec_traf_collect`] describes.
fn collect_traf(
    traf: &Mp4Box,
    tracks: &mut Vec<TrackFragments>,
    mdat: &[u8],
    moof_off: usize,
    mdat_start: usize,
) -> (r: Result<(), Mp4Error>)
    ensures
        match r {
            Ok(()) => spec_traf_collect(
                traf@.payload,
                track_views(old(tracks)@),
                mdat@,
                moof_off as int,
                mdat_start as int,
            ) == Ok::<Seq<SpecTrack>, Mp4Error>(track_views(final(tracks)@)),
            Err(e) => spec_traf_collect(
                traf@.payload,
                track_views(old(tracks)@),
                mdat@,
                moof_off as int,
                mdat_start as int,
            ) == Err::<Seq<SpecTrack>, Mp4Error>(e),
        },
{
    proof {
        reveal(spec_traf_collect);
    }
    let tcs = match crate::boxes::parse_container_box(traf.data.as_slice()) {
        Ok(bs) => bs,
        Err(e) => {
            return Err(e);
        },
    };
    let ghost cs = crate::boxes::box_views(tcs@);

    let (tid, dd, ds, df) = match find_wide_tfhd(tcs.as_slice()) {
        None => (0u32, 0u32, 0u32, 0u32),
        Some(t) => match crate::codecs::parse_tfhd(t.data.as_slice()) {
            Ok(h) => h,
            Err(e) => {
                return Err(e);
            },
        },
    };

    let ghost ts0 = track_views(tracks@);
    let mut j: usize = 0;
    proof {
        assert(cs.skip(0) =~= cs);
    }
    while j < tcs.len()
        invariant
            cs == crate::boxes::box_views(tcs@),
            j <= tcs@.len(),
            ts0 == track_views(old(tracks)@),
            spec_traf_collect(
                traf@.payload,
                ts0,
                mdat@,
                moof_off as int,
                mdat_start as int,
            ) == spec_traf_trun_fold(
                cs,
                ts0,
                tid as int,
                dd as int,
                ds as int,
                df as int,
                mdat@,
                moof_off as int,
                mdat_start as int,
            ),
            spec_traf_trun_fold(
                cs,
                ts0,
                tid as int,
                dd as int,
                ds as int,
                df as int,
                mdat@,
                moof_off as int,
                mdat_start as int,
            ) == spec_traf_trun_fold(
                cs.skip(j as int),
                track_views(tracks@),
                tid as int,
                dd as int,
                ds as int,
                df as int,
                mdat@,
                moof_off as int,
                mdat_start as int,
            ),
        decreases tcs@.len() - j,
    {
        proof {
            assert(cs.skip(j as int)[0] == cs[j as int]);
            assert(cs.skip(j as int).drop_first() =~= cs.skip(j as int + 1));
        }
        let b = &tcs[j];
        if crate::boxes::box_type_is(b, TRUN) {
            match crate::codecs::parse_trun_samples(b.data.as_slice(), dd, ds, df) {
                Ok((samples, doff)) => {
                    match apply_trun(tracks, tid, &samples, doff, mdat, moof_off, mdat_start) {
                        Ok(()) => {},
                        Err(e) => {
                            return Err(e);
                        },
                    }
                },
                Err(e) => {
                    return Err(e);
                },
            }
        }
        j = j + 1;
    }
    proof {
        assert(cs.skip(tcs@.len() as int) =~= Seq::<SpecBox>::empty());
    }
    Ok(())
}

/// Applies one moof/mdat pair to the tracks, as [`spec_moof_collect`]
/// describes.
fn collect_moof(
    moof: &Mp4Box,
    tracks: &mut Vec<TrackFragments>,
    mdat: &[u8],
    moof_off: usize,
    mdat_start: usize,
) -> (r: Result<(), Mp4Error>)
    ensures
        match r {
            Ok(()) => spec_moof_collect(
                moof@.payload,
                track_views(old(tracks)@),
                mdat@,
                moof_off as int,
                mdat_start as int,
            ) == Ok::<Seq<SpecTrack>, Mp4Error>(track_views(final(tracks)@)),
            Err(e) => spec_moof_collect(
                moof@.payload,
                track_views(old(tracks)@),
                mdat@,
                moof_off as int,
                mdat_start as int,
            ) == Err::<Seq<SpecTrack>, Mp4Error>(e),
        },
{
    proof {
        reveal(spec_moof_collect);
    }
    let mcs = match crate::boxes::parse_container_box(moof.data.as_slice()) {
        Ok(bs) => bs,
        Err(e) => {
            return Err(e);
        },
    };
    let ghost cs = crate::boxes::box_views(mcs@);
    let ghost ts0 = track_views(tracks@);
    let mut j: usize = 0;
    proof {
        assert(cs.skip(0) =~= cs);
    }
    while j < mcs.len()
        invariant
            cs == crate::boxes::box_views(mcs@),
            j <= mcs@.len(),
            ts0 == track_views(old(tracks)@),
            spec_moof_collect(
                moof@.payload,
                ts0,
                mdat@,
                moof_off as int,
                mdat_start as int,
            ) == spec_moof_traf_fold(cs, ts0, mdat@, moof_off as int, mdat_start as int),
            spec_moof_traf_fold(cs, ts0, mdat@, moof_off as int, mdat_start as int)
                == spec_moof_traf_fold(
                cs.skip(j as int),
                track_views(tracks@),
                mdat@,
                moof_off as int,
                mdat_start as int,
            ),
        decreases mcs@.len() - j,
    {
        proof {
            assert(cs.skip(j as int)[0] == cs[j as int]);
            assert(cs.skip(j as int).drop_first() =~= cs.skip(j as int + 1));
        }
        let b = &mcs[j];
        if crate::boxes::box_type_is(b, TRAF) {
            match collect_traf(b, tracks, mdat, moof_off, mdat_start) {
                Ok(()) => {},
                Err(e) => {
                    return Err(e);
                },
            }
        }
        j = j + 1;
    }
    proof {
        assert(cs.skip(mcs@.len() as int) =~= Seq::<SpecBox>::empty());
    }
    Ok(())
}

/// Gathers every track's samples and payload bytes across all
/// moof/mdat pairs in file order, as [`spec_collect_fold`] describes.
fn collect_fragment_data(
    file_data: &[u8],
    boxes: &[BoxInfo],
    tracks: &mut Vec<TrackFragments>,
) -> (r: Result<(), Mp4Error>)
    requires
        forall|k: int| 0 <= k < crate::boxes::info_views(boxes@).len()
            ==> #[trigger] crate::boxes::wf_top_entry(
            file_data@,
            crate::boxes::info_views(boxes@)[k],
        ),
    ensures
        match r {
            Ok(()) => spec_collect_fold(
                crate::boxes::info_views(boxes@),
                file_data@,
                track_views(old(tracks)@),
                None,
            ) == Ok::<Seq<SpecTrack>, Mp4Error>(track_views(final(tracks)@)),
            Err(e) => spec_collect_fold(
                crate::boxes::info_views(boxes@),
                file_data@,
                track_views(old(tracks)@),
                None,
            ) == Err::<Seq<SpecTrack>, Mp4Error>(e),
        },
{
    let ghost es = crate::boxes::info_views(boxes@);
    let ghost ts0 = track_views(tracks@);
    let mut pending: Option<&Mp4Box> = None;
    let mut i: usize = 0;
    proof {
        assert(es.skip(0) =~= es);
    }
    while i < boxes.len()
        invariant
            es == crate::boxes::info_views(boxes@),
            i <= boxes@.len(),
            forall|k: int| 0 <= k < es.len() ==> #[trigger] crate::boxes::wf_top_entry(
                file_data@,
                es[k],
            ),
            ts0 == track_views(old(tracks)@),
            spec_collect_fold(es, file_data@, ts0, None) == spec_collect_fold(
                es.skip(i as int),
                file_data@,
                track_views(tracks@),
                match pending {
                    Some(pb) => Some((pb@.payload, pb@.offset)),
                    None => None,
                },
            ),
        decreases boxes@.len() - i,
    {
        proof {
            assert(es.skip(i as int)[0] == es[i as int]);
            assert(es.skip(i as int).drop_first() =~= es.skip(i as int + 1));
            assert(crate::boxes::wf_top_entry(file_data@, es[i as int]));
        }
        match &boxes[i] {
            BoxInfo::Small(b) => {
                if crate::boxes::box_type_is(b, MOOF) {
                    pending = Some(b);
                }
            },
            BoxInfo::Mdat(m) => {
                match pending {
                    None => {},
                    Some(pb) => {
                        proof {
                            assert(m@.payload_offset + m@.payload_size <= file_data@.len());
                        }
                        let dlen = file_data.len();
                        assert(m.data_offset + m.data_size <= dlen);
                        let mdat_slice = vstd::slice::slice_subrange(
                            file_data,
                            m.data_offset,
                            m.data_offset + m.data_size,
                        );
                        match collect_moof(pb, tracks, mdat_slice, pb.offset, m.data_offset) {
                            Ok(()) => {},
                            Err(e) => {
                                return Err(e);
                            },
                        }
                        pending = None;
                    },
                }
            },
        }
        i = i + 1;
    }
    proof {
        assert(es.skip(boxes@.len() as int) =~= Seq::<SpecBoxInfo>::empty());
    }
    Ok(())
}

/// Whether any sample carries a nonzero composition offset (only then
/// is a ctts box emitted).
pub open spec fn has_comp(ss: Seq<SpecSample>) -> bool {
    exists|i: int| 0 <= i < ss.len() && (#[trigger] ss[i]).composition_time_offset != 0
}

fn any_nonzero_comp(samples: &[SampleDescriptor]) -> (r: bool)
    ensures
        r == has_comp(sample_views(samples@)),
{
    let ghost ss = sample_views(samples@);
    let mut i: usize = 0;
    while i < samples.len()
        invariant
            ss == sample_views(samples@),
            i <= samples@.len(),
            forall|j: int| 0 <= j < i ==> (#[trigger] ss[j]).composition_time_offset == 0,
        decreases samples@.len() - i,
    {
        if samples[i].composition_time_offset != 0 {
            proof {
                assert(ss[i as int].composition_time_offset != 0);
            }
            return true;
        }
        i = i + 1;
    }
    false
}

/// The sum of the first `k` sample durations.
pub open spec fn sum_durs(ss: Seq<SpecSample>, k: int) -> int
    decreases k,
{
    if k <= 0 {
        0
    } else {
        sum_durs(ss, k - 1) + ss[k - 1].duration
    }
}

pub proof fn lemma_sum_durs_bound(ss: Seq<SpecSample>, k: int)
    requires
        0 <= k <= ss.len(),
        forall|i: int| 0 <= i < ss.len() ==> 0 <= (#[trigger] ss[i]).duration < 0x100000000,
    ensures
        0 <= sum_durs(ss, k),
        sum_durs(ss, k) <= k * 0x100000000,
    decreases k,
{
    if k > 0 {
        lemma_sum_durs_bound(ss, k - 1);
        assert((k - 1) * 0x100000000 + 0x100000000 == k * 0x100000000) by (nonlinear_arith);
    }
}

/// Sums a track's sample durations.
fn total_duration(samples: &[SampleDescriptor]) -> (r: u64)
    requires
        samples@.len() < 0x100000000,
    ensures
        r == sum_durs(sample_views(samples@), samples@.len() as int),
{
    let ghost ss = sample_views(samples@);
    let mut total: u64 = 0;
    let mut i: usize = 0;
    while i < samples.len()
        invariant
            ss == sample_views(samples@),
            ss.len() < 0x100000000,
            i <= samples@.len(),
            total == sum_durs(ss, i as int),
        decreases samples@.len() - i,
    {
        proof {
            lemma_sum_durs_bound(ss, i as int + 1);
            assert((i as int + 1) * 0x100000000 <= 0x100000000 * 0x100000000) by (nonlinear_arith)
                requires i as int + 1 <= 0x100000000;
        }
        total = total + samples[i].duration as u64;
        i = i + 1;
    }
    total
}

/// The rebuilt sample-table (stbl) payload for one track: the cached
/// stsd, fresh stts/stsc/stsz/stco tables, a ctts only when some
/// composition offset is nonzero, and an stss only when there are sync
/// samples.
pub open spec fn spec_build_stbl(t: SpecTrack, base: int) -> Seq<u8> {
    (if t.codec.len() > 0 {
        crate::boxes::serialize_box(STSD as int, t.codec)
    } else {
        Seq::empty()
    }) + crate::boxes::serialize_box(STTS as int, spec_build_stts(t.samples))
        + crate::boxes::serialize_box(STSC as int, spec_build_stsc())
        + crate::boxes::serialize_box(STSZ as int, spec_build_stsz(t.samples))
        + crate::boxes::serialize_box(STCO as int, spec_build_stco(t.samples, base)) + (if has_comp(
        t.samples,
    ) {
        crate::boxes::serialize_box(CTTS as int, spec_build_ctts(t.samples))
    } else {
        Seq::empty()
    }) + (if spec_build_stss(t.samples).len() > 0 {
        crate::boxes::serialize_box(STSS as int, spec_build_stss(t.samples))
    } else {
        Seq::empty()
    })
}

/// Builds the stbl payload for one track.
fn build_sample_tables(track: &TrackFragments, mdat_offset: u64) -> (out: Vec<u8>)
    requires
        track.samples@.len() < 0x100000000,
    ensures
        out@ == spec_build_stbl(track@, mdat_offset as int),
{
    let stsd_tag: [u8; 4] = [0x73, 0x74, 0x73, 0x64];
    let stts_tag: [u8; 4] = [0x73, 0x74, 0x74, 0x73];
    let stsc_tag: [u8; 4] = [0x73, 0x74, 0x73, 0x63];
    let stsz_tag: [u8; 4] = [0x73, 0x74, 0x73, 0x7a];
    let stco_tag: [u8; 4] = [0x73, 0x74, 0x63, 0x6f];
    let ctts_tag: [u8; 4] = [0x63, 0x74, 0x74, 0x73];
    let stss_tag: [u8; 4] = [0x73, 0x74, 0x73, 0x73];
    proof {
        assert(be32(stsd_tag@, 0) == STSD as int);
        assert(be32(stts_tag@, 0) == STTS as int);
        assert(be32(stsc_tag@, 0) == STSC as int);
        assert(be32(stsz_tag@, 0) == STSZ as int);
        assert(be32(stco_tag@, 0) == STCO as int);
        assert(be32(ctts_tag@, 0) == CTTS as int);
        assert(be32(stss_tag@, 0) == STSS as int);
    }

    let mut out: Vec<u8> = Vec::new();
    if track.codec_info.len() > 0 {
        crate::boxes::write_box(&mut out, &stsd_tag, track.codec_info.as_slice());
    }
    let stts = build_stts(track.samples.as_slice());
    crate::boxes::write_box(&mut out, &stts_tag, stts.as_slice());
    let stsc = build_stsc_multi_chunk();
    crate::boxes::write_box(&mut out, &stsc_tag, stsc.as_slice());
    let stsz = build_stsz(track.samples.as_slice());
    crate::boxes::write_box(&mut out, &stsz_tag, stsz.as_slice());
    let stco = build_stco_multi_chunk(track.samples.as_slice(), mdat_offset);
    crate::boxes::write_box(&mut out, &stco_tag, stco.as_slice());
    if any_nonzero_comp(track.samples.as_slice()) {
        let ctts = build_ctts(track.samples.as_slice());
        crate::boxes::write_box(&mut out, &ctts_tag, ctts.as_slice());
    }
    let stss = build_stss(track.samples.as_slice());
    if stss.len() > 0 {
        crate::boxes::write_box(&mut out, &stss_tag, stss.as_slice());
    }
    proof {
        assert(out@ =~= spec_build_stbl(track@, mdat_offset as int));
    }
    out
}

/// The per-child rewrite of a minf box: stbl is rebuilt from the
/// collected samples; everything else is copied.
pub open spec fn minf_child_fn(t: SpecTrack, base: int) -> spec_fn(SpecBox) -> Result<
    Seq<crate::boxes::RawBox>,
    Mp4Error,
> {
    |c: SpecBox| if c.typ == STBL as int {
        Ok(seq![crate::boxes::RawBox::Boxed { typ: c.typ, payload: spec_build_stbl(t, base) }])
    } else {
        Ok(seq![crate::boxes::RawBox::Boxed { typ: c.typ, payload: c.payload }])
    }
}

/// A minf payload rebuilt for one track.
#[verifier::opaque]
pub open spec fn spec_build_minf(p: Seq<u8>, t: SpecTrack, base: int) -> Result<Seq<u8>, Mp4Error> {
    match crate::boxes::spec_parse_boxes(p, 0) {
        Err(e) => Err(e),
        Ok(cs) => match crate::boxes::fold_children(cs, minf_child_fn(t, base)) {
            Err(e) => Err(e),
            Ok(raws) => Ok(crate::boxes::serialize_raws(raws)),
        },
    }
}

fn build_regular_minf(minf_data: &[u8], track: &TrackFragments, mdat_offset: u64) -> (r: Result<
    Vec<u8>,
    Mp4Error,
>)
    requires
        track.samples@.len() < 0x100000000,
    ensures
        match r {
            Ok(out) => spec_build_minf(minf_data@, track@, mdat_offset as int) == Ok::<
                Seq<u8>,
                Mp4Error,
            >(out@),
            Err(e) => spec_build_minf(minf_data@, track@, mdat_offset as int) == Err::<
                Seq<u8>,
                Mp4Error,
            >(e),
        },
{
    proof {
        reveal(spec_build_minf);
    }
    let boxes = match crate::boxes::parse_container_box(minf_data) {
        Ok(bs) => bs,
        Err(e) => {
            return Err(e);
        },
    };
    let ghost cs = crate::boxes::box_views(boxes@);
    let ghost f = minf_child_fn(track@, mdat_offset as int);
    let mut output: Vec<u8> = Vec::new();
    let ghost mut racc: Seq<crate::boxes::RawBox> = Seq::empty();
    let mut i: usize = 0;
    proof {
        assert(cs.skip(0) =~= cs);
        match crate::boxes::fold_children(cs, f) {
            Ok(rest) => {
                assert(racc + rest =~= rest);
            },
            Err(_) => {},
        }
        assert(crate::boxes::serialize_raws(racc) =~= Seq::<u8>::empty());
    }
    while i < boxes.len()
        invariant
            cs == crate::boxes::box_views(boxes@),
            i <= boxes@.len(),
            track.samples@.len() < 0x100000000,
            f == minf_child_fn(track@, mdat_offset as int),
            output@ == crate::boxes::serialize_raws(racc),
            crate::boxes::fold_children(cs, f) == match crate::boxes::fold_children(
                cs.skip(i as int),
                f,
            ) {
                Ok(rest) => Ok::<Seq<crate::boxes::RawBox>, Mp4Error>(racc + rest),
                Err(e) => Err::<Seq<crate::boxes::RawBox>, Mp4Error>(e),
            },
            spec_build_minf(minf_data@, track@, mdat_offset as int) == match
                crate::boxes::fold_children(cs, f) {
                Ok(raws) => Ok::<Seq<u8>, Mp4Error>(crate::boxes::serialize_raws(raws)),
                Err(e) => Err::<Seq<u8>, Mp4Error>(e),
            },
        decreases boxes@.len() - i,
    {
        proof {
            assert(cs.skip(i as int)[0] == cs[i as int]);
            assert(cs.skip(i as int).drop_first() =~= cs.skip(i as int + 1));
        }
        let ghost prev_racc = racc;
        let b = &boxes[i];
        if crate::boxes::box_type_is(b, STBL) {
            let new_payload = build_sample_tables(track, mdat_offset);
            let ghost raw = crate::boxes::RawBox::Boxed { typ: b@.typ, payload: new_payload@ };
            proof {
                assert(f(cs[i as int]) == Ok::<Seq<crate::boxes::RawBox>, Mp4Error>(seq![raw]));
            }
            crate::boxes::write_box(&mut output, &b.box_type, new_payload.as_slice());
            proof {
                crate::boxes::lemma_serialize_raws_push(prev_racc, raw);
                racc = prev_racc.push(raw);
                match crate::boxes::fold_children(cs.skip(i as int + 1), f) {
                    Ok(rest) => {
                        assert(prev_racc + (seq![raw] + rest) =~= racc + rest);
                    },
                    Err(_) => {},
                }
            }
        } else {
            let ghost raw = crate::boxes::RawBox::Boxed { typ: b@.typ, payload: b.data@ };
            proof {
                assert(f(cs[i as int]) == Ok::<Seq<crate::boxes::RawBox>, Mp4Error>(seq![raw]));
            }
            crate::boxes::write_box(&mut output, &b.box_type, b.data.as_slice());
            proof {
                crate::boxes::lemma_serialize_raws_push(prev_racc, raw);
                racc = prev_racc.push(raw);
                match crate::boxes::fold_children(cs.skip(i as int + 1), f) {
                    Ok(rest) => {
                        assert(prev_racc + (seq![raw] + rest) =~= racc + rest);
                    },
                    Err(_) => {},
                }
            }
        }
        i = i + 1;
    }
    proof {
        assert(cs.skip(boxes@.len() as int) =~= Seq::<SpecBox>::empty());
        match crate::boxes::fold_children(cs, f) {
            Ok(raws) => {
                assert(racc + Seq::<crate::boxes::RawBox>::empty() =~= racc);
            },
            Err(_) => {},
        }
    }
    Ok(output)
}


/// The per-child rewrite of an mdia box in the rebuilt file: mdhd is
/// downgraded with the track's total rebuilt duration, minf is rebuilt
/// recursively; everything else is copied.
pub open spec fn mdia_build_fn(t: SpecTrack, base: int) -> spec_fn(SpecBox) -> Result<
    Seq<crate::boxes::RawBox>,
    Mp4Error,
> {
    |c: SpecBox| if c.typ == MDHD as int {
        match spec_update_mdhd_dur(c.payload, sum_durs(t.samples, t.samples.len() as int)) {
            Err(e) => Err(e),
            Ok(np) => Ok(seq![crate::boxes::RawBox::Boxed { typ: c.typ, payload: np }]),
        }
    } else if c.typ == MINF as int {
        match spec_build_minf(c.payload, t, base) {
            Err(e) => Err(e),
            Ok(np) => Ok(seq![crate::boxes::RawBox::Boxed { typ: c.typ, payload: np }]),
        }
    } else {
        Ok(seq![crate::boxes::RawBox::Boxed { typ: c.typ, payload: c.payload }])
    }
}

/// An mdia payload rebuilt for one track.
#[verifier::opaque]
pub open spec fn spec_build_mdia(p: Seq<u8>, t: SpecTrack, base: int) -> Result<Seq<u8>, Mp4Error> {
    match crate::boxes::spec_parse_boxes(p, 0) {
        Err(e) => Err(e),
        Ok(cs) => match crate::boxes::fold_children(cs, mdia_build_fn(t, base)) {
            Err(e) => Err(e),
            Ok(raws) => Ok(crate::boxes::serialize_raws(raws)),
        },
    }
}

fn build_regular_mdia(mdia_data: &[u8], track: &TrackFragments, mdat_offset: u64) -> (r: Result<
    Vec<u8>,
    Mp4Error,
>)
    requires
        track.samples@.len() < 0x100000000,
    ensures
        match r {
            Ok(out) => spec_build_mdia(mdia_data@, track@, mdat_offset as int) == Ok::<Seq<u8>, Mp4Error>(out@),
            Err(e) => spec_build_mdia(mdia_data@, track@, mdat_offset as int) == Err::<Seq<u8>, Mp4Error>(e),
        },
{
    proof {
        reveal(spec_build_mdia);
    }
    let tdur = total_duration(track.samples.as_slice());

    let boxes = match crate::boxes::parse_container_box(mdia_data) {
        Ok(bs) => bs,
        Err(e) => {
            return Err(e);
        },
    };
    let ghost cs = crate::boxes::box_views(boxes@);
    let ghost f = mdia_build_fn(track@, mdat_offset as int);
    let mut output: Vec<u8> = Vec::new();
    let ghost mut racc: Seq<crate::boxes::RawBox> = Seq::empty();
    let mut i: usize = 0;
    proof {
        assert(cs.skip(0) =~= cs);
        match crate::boxes::fold_children(cs, f) {
            Ok(rest) => {
                assert(racc + rest =~= rest);
            },
            Err(_) => {},
        }
        assert(crate::boxes::serialize_raws(racc) =~= Seq::<u8>::empty());
    }
    while i < boxes.len()
        invariant
            cs == crate::boxes::box_views(boxes@),
            i <= boxes@.len(),
            track.samples@.len() < 0x100000000,
            tdur == sum_durs(track@.samples, track@.samples.len() as int),

            f == mdia_build_fn(track@, mdat_offset as int),
            output@ == crate::boxes::serialize_raws(racc),
            crate::boxes::fold_children(cs, f) == match crate::boxes::fold_children(
                cs.skip(i as int),
                f,
            ) {
                Ok(rest) => Ok::<Seq<crate::boxes::RawBox>, Mp4Error>(racc + rest),
                Err(e) => Err::<Seq<crate::boxes::RawBox>, Mp4Error>(e),
            },
            spec_build_mdia(mdia_data@, track@, mdat_offset as int) == match crate::boxes::fold_children(cs, f) {
                Ok(raws) => Ok::<Seq<u8>, Mp4Error>(crate::boxes::serialize_raws(raws)),
                Err(e) => Err::<Seq<u8>, Mp4Error>(e),
            },
        decreases boxes@.len() - i,
    {
        proof {
            assert(cs.skip(i as int)[0] == cs[i as int]);
            assert(cs.skip(i as int).drop_first() =~= cs.skip(i as int + 1));
        }
        let ghost prev_racc = racc;
        let b = &boxes[i];
        if crate::boxes::box_type_is(b, MDHD) {
            match update_mdhd_duration(b.data.as_slice(), tdur) {
                Ok(new_payload) => {
                    let ghost raw = crate::boxes::RawBox::Boxed { typ: b@.typ, payload: new_payload@ };
                    proof {
                        assert(f(cs[i as int]) == Ok::<Seq<crate::boxes::RawBox>, Mp4Error>(
                            seq![raw],
                        ));
                    }
                    crate::boxes::write_box(&mut output, &b.box_type, new_payload.as_slice());
                    proof {
                        crate::boxes::lemma_serialize_raws_push(prev_racc, raw);
                        racc = prev_racc.push(raw);
                        match crate::boxes::fold_children(cs.skip(i as int + 1), f) {
                            Ok(rest) => {
                                assert(prev_racc + (seq![raw] + rest) =~= racc + rest);
                            },
                            Err(_) => {},
                        }
                    }
                },
                Err(e) => {
                    return Err(e);
                },
            }
        } else if crate::boxes::box_type_is(b, MINF) {
            match build_regular_minf(b.data.as_slice(), track, mdat_offset) {
                Ok(new_payload) => {
                    let ghost raw = crate::boxes::RawBox::Boxed { typ: b@.typ, payload: new_payload@ };
                    proof {
                        assert(f(cs[i as int]) == Ok::<Seq<crate::boxes::RawBox>, Mp4Error>(
                            seq![raw],
                        ));
                    }
                    crate::boxes::write_box(&mut output, &b.box_type, new_payload.as_slice());
                    proof {
                        crate::boxes::lemma_serialize_raws_push(prev_racc, raw);
                        racc = prev_racc.push(raw);
                        match crate::boxes::fold_children(cs.skip(i as int + 1), f) {
                            Ok(rest) => {
                                assert(prev_racc + (seq![raw] + rest) =~= racc + rest);
                            },
                            Err(_) => {},
                        }
                    }
                },
                Err(e) => {
                    return Err(e);
                },
            }
        } else {
            let ghost raw = crate::boxes::RawBox::Boxed { typ: b@.typ, payload: b.data@ };
            proof {
                assert(f(cs[i as int]) == Ok::<Seq<crate::boxes::RawBox>, Mp4Error>(seq![raw]));
            }
            crate::boxes::write_box(&mut output, &b.box_type, b.data.as_slice());
            proof {
                crate::boxes::lemma_serialize_raws_push(prev_racc, raw);
                racc = prev_racc.push(raw);
                match crate::boxes::fold_children(cs.skip(i as int + 1), f) {
                    Ok(rest) => {
                        assert(prev_racc + (seq![raw] + rest) =~= racc + rest);
                    },
                    Err(_) => {},
                }
            }
        }
        i = i + 1;
    }
    proof {
        assert(cs.skip(boxes@.len() as int) =~= Seq::<SpecBox>::empty());
        match crate::boxes::fold_children(cs, f) {
            Ok(raws) => {
                assert(racc + Seq::<crate::boxes::RawBox>::empty() =~= racc);
            },
            Err(_) => {},
        }
    }
    Ok(output)
}


/// The per-child rewrite of a trak box in the rebuilt file: tkhd is
/// downgraded with the track's total rebuilt duration, mdia is rebuilt
/// recursively; everything else (edts included) is copied.
pub open spec fn trak_build_fn(t: SpecTrack, base: int) -> spec_fn(SpecBox) -> Result<
    Seq<crate::boxes::RawBox>,
    Mp4Error,
> {
    |c: SpecBox| if c.typ == TKHD as int {
        match spec_update_tkhd_dur(c.payload, sum_durs(t.samples, t.samples.len() as int)) {
            Err(e) => Err(e),
            Ok(np) => Ok(seq![crate::boxes::RawBox::Boxed { typ: c.typ, payload: np }]),
        }
    } else if c.typ == MDIA as int {
        match spec_build_mdia(c.payload, t, base) {
            Err(e) => Err(e),
            Ok(np) => Ok(seq![crate::boxes::RawBox::Boxed { typ: c.typ, payload: np }]),
        }
    } else {
        Ok(seq![crate::boxes::RawBox::Boxed { typ: c.typ, payload: c.payload }])
    }
}

/// A trak payload rebuilt for one track.
#[verifier::opaque]
pub open spec fn spec_build_trak(p: Seq<u8>, t: SpecTrack, base: int) -> Result<Seq<u8>, Mp4Error> {
    match crate::boxes::spec_parse_boxes(p, 0) {
        Err(e) => Err(e),
        Ok(cs) => match crate::boxes::fold_children(cs, trak_build_fn(t, base)) {
            Err(e) => Err(e),
            Ok(raws) => Ok(crate::boxes::serialize_raws(raws)),
        },
    }
}

fn build_regular_trak(trak_data: &[u8], track: &TrackFragments, mdat_offset: u64) -> (r: Result<
    Vec<u8>,
    Mp4Error,
>)
    requires
        track.samples@.len() < 0x100000000,
    ensures
        match r {
            Ok(out) => spec_build_trak(trak_data@, track@, mdat_offset as int) == Ok::<Seq<u8>, Mp4Error>(out@),
            Err(e) => spec_build_trak(trak_data@, track@, mdat_offset as int) == Err::<Seq<u8>, Mp4Error>(e),
        },
{
    proof {
        reveal(spec_build_trak);
    }
    let tdur = total_duration(track.samples.as_slice());

    let boxes = match crate::boxes::parse_container_box(trak_data) {
        Ok(bs) => bs,
        Err(e) => {
            return Err(e);
        },
    };
    let ghost cs = crate::boxes::box_views(boxes@);
    let ghost f = trak_build_fn(track@, mdat_offset as int);
    let mut output: Vec<u8> = Vec::new();
    let ghost mut racc: Seq<crate::boxes::RawBox> = Seq::empty();
    let mut i: usize = 0;
    proof {
        assert(cs.skip(0) =~= cs);
        match crate::boxes::fold_children(cs, f) {
            Ok(rest) => {
                assert(racc + rest =~= rest);
            },
            Err(_) => {},
        }
        assert(crate::boxes::serialize_raws(racc) =~= Seq::<u8>::empty());
    }
    while i < boxes.len()
        invariant
            cs == crate::boxes::box_views(boxes@),
            i <= boxes@.len(),
            track.samples@.len() < 0x100000000,
            tdur == sum_durs(track@.samples, track@.samples.len() as int),

            f == trak_build_fn(track@, mdat_offset as int),
            output@ == crate::boxes::serialize_raws(racc),
            crate::boxes::fold_children(cs, f) == match crate::boxes::fold_children(
                cs.skip(i as int),
                f,
            ) {
                Ok(rest) => Ok::<Seq<crate::boxes::RawBox>, Mp4Error>(racc + rest),
                Err(e) => Err::<Seq<crate::boxes::RawBox>, Mp4Error>(e),
            },
            spec_build_trak(trak_data@, track@, mdat_offset as int) == match crate::boxes::fold_children(cs, f) {
                Ok(raws) => Ok::<Seq<u8>, Mp4Error>(crate::boxes::serialize_raws(raws)),
                Err(e) => Err::<Seq<u8>, Mp4Error>(e),
            },
        decreases boxes@.len() - i,
    {
        proof {
            assert(cs.skip(i as int)[0] == cs[i as int]);
            assert(cs.skip(i as int).drop_first() =~= cs.skip(i as int + 1));
        }
        let ghost prev_racc = racc;
        let b = &boxes[i];
        if crate::boxes::box_type_is(b, TKHD) {
            match update_tkhd_duration(b.data.as_slice(), tdur) {
                Ok(new_payload) => {
                    let ghost raw = crate::boxes::RawBox::Boxed { typ: b@.typ, payload: new_payload@ };
                    proof {
                        assert(f(cs[i as int]) == Ok::<Seq<crate::boxes::RawBox>, Mp4Error>(
                            seq![raw],
                        ));
                    }
                    crate::boxes::write_box(&mut output, &b.box_type, new_payload.as_slice());
                    proof {
                        crate::boxes::lemma_serialize_raws_push(prev_racc, raw);
                        racc = prev_racc.push(raw);
                        match crate::boxes::fold_children(cs.skip(i as int + 1), f) {
                            Ok(rest) => {
                                assert(prev_racc + (seq![raw] + rest) =~= racc + rest);
                            },
                            Err(_) => {},
                        }
                    }
                },
                Err(e) => {
                    return Err(e);
                },
            }
        } else if crate::boxes::box_type_is(b, MDIA) {
            match build_regular_mdia(b.data.as_slice(), track, mdat_offset) {
                Ok(new_payload) => {
                    let ghost raw = crate::boxes::RawBox::Boxed { typ: b@.typ, payload: new_payload@ };
                    proof {
                        assert(f(cs[i as int]) == Ok::<Seq<crate::boxes::RawBox>, Mp4Error>(
                            seq![raw],
                        ));
                    }
                    crate::boxes::write_box(&mut output, &b.box_type, new_payload.as_slice());
                    proof {
                        crate::boxes::lemma_serialize_raws_push(prev_racc, raw);
                        racc = prev_racc.push(raw);
                        match crate::boxes::fold_children(cs.skip(i as int + 1), f) {
                            Ok(rest) => {
                                assert(prev_racc + (seq![raw] + rest) =~= racc + rest);
                            },
                            Err(_) => {},
                        }
                    }
                },
                Err(e) => {
                    return Err(e);
                },
            }
        } else {
            let ghost raw = crate::boxes::RawBox::Boxed { typ: b@.typ, payload: b.data@ };
            proof {
                assert(f(cs[i as int]) == Ok::<Seq<crate::boxes::RawBox>, Mp4Error>(seq![raw]));
            }
            crate::boxes::write_box(&mut output, &b.box_type, b.data.as_slice());
            proof {
                crate::boxes::lemma_serialize_raws_push(prev_racc, raw);
                racc = prev_racc.push(raw);
                match crate::boxes::fold_children(cs.skip(i as int + 1), f) {
                    Ok(rest) => {
                        assert(prev_racc + (seq![raw] + rest) =~= racc + rest);
                    },
                    Err(_) => {},
                }
            }
        }
        i = i + 1;
    }
    proof {
        assert(cs.skip(boxes@.len() as int) =~= Seq::<SpecBox>::empty());
        match crate::boxes::fold_children(cs, f) {
            Ok(raws) => {
                assert(racc + Seq::<crate::boxes::RawBox>::empty() =~= racc);
            },
            Err(_) => {},
        }
    }
    Ok(output)
}


/// The movie timescale read leniently from moov's mvhd child, with
/// 1000 as the fallback.
pub open spec fn spec_movie_timescale(cs: Seq<SpecBox>) -> int {
    match crate::boxes::first_box(cs, MVHD as int) {
        None => 1000,
        Some(v) => {
            let p = v.payload;
            if p.len() >= 16 {
                if p[0] == 1 && p.len() >= 24 {
                    be32(p, 20)
                } else {
                    be32(p, 12)
                }
            } else {
                1000
            }
        },
    }
}

/// A track's total rebuilt duration expressed on the movie time axis.
pub open spec fn scaled_dur(t: SpecTrack, mts: int) -> int {
    let td = sum_durs(t.samples, t.samples.len() as int);
    if t.timescale != 0 && t.timescale != mts {
        td * mts / t.timescale
    } else {
        td
    }
}

/// The longest track duration on the movie time axis.
pub open spec fn max_scaled(ts: Seq<SpecTrack>, mts: int) -> int
    decreases ts.len(),
{
    if ts.len() == 0 {
        0
    } else {
        let m = max_scaled(ts.drop_last(), mts);
        if scaled_dur(ts.last(), mts) >= m {
            scaled_dur(ts.last(), mts)
        } else {
            m
        }
    }
}

/// The per-child rewrite of the moov box in the rebuilt file: mvhd is
/// downgraded with the movie duration, each trak whose id matches a
/// collected track is rebuilt, an unmatched trak is copied unchanged.
pub open spec fn moov_build_fn(ts: Seq<SpecTrack>, offs: Seq<u64>, md: int) -> spec_fn(
    SpecBox,
) -> Result<Seq<crate::boxes::RawBox>, Mp4Error> {
    |c: SpecBox| if c.typ == MVHD as int {
        match spec_update_mvhd_dur(c.payload, md) {
            Err(e) => Err(e),
            Ok(np) => Ok(seq![crate::boxes::RawBox::Boxed { typ: c.typ, payload: np }]),
        }
    } else if c.typ == TRAK as int {
        match crate::boxes::spec_parse_boxes(c.payload, 0) {
            Err(e) => Err(e),
            Ok(tcs) => match find_track_from(ts, spec_lenient_tid(tcs), 0) {
                None => Ok(seq![crate::boxes::RawBox::Boxed { typ: c.typ, payload: c.payload }]),
                Some(pos) => {
                    let base: int = if pos < offs.len() {
                        offs[pos] as int
                    } else {
                        8000
                    };
                    match spec_build_trak(c.payload, ts[pos], base) {
                        Err(e) => Err(e),
                        Ok(np) => Ok(seq![crate::boxes::RawBox::Boxed { typ: c.typ, payload: np }]),
                    }
                },
            },
        }
    } else {
        Ok(seq![crate::boxes::RawBox::Boxed { typ: c.typ, payload: c.payload }])
    }
}

/// A moov payload rebuilt from the collected tracks and their mdat
/// base offsets.
#[verifier::opaque]
pub open spec fn spec_build_moov(p: Seq<u8>, ts: Seq<SpecTrack>, offs: Seq<u64>) -> Result<
    Seq<u8>,
    Mp4Error,
> {
    match crate::boxes::spec_parse_boxes(p, 0) {
        Err(e) => Err(e),
        Ok(cs) => match crate::boxes::fold_children(
            cs,
            moov_build_fn(ts, offs, max_scaled(ts, spec_movie_timescale(cs))),
        ) {
            Err(e) => Err(e),
            Ok(raws) => Ok(crate::boxes::serialize_raws(raws)),
        },
    }
}

/// Reads the movie timescale from parsed moov children.
fn movie_timescale(boxes: &[Mp4Box]) -> (r: u32)
    ensures
        r == spec_movie_timescale(crate::boxes::box_views(boxes@)),
{
    let mvhd_tag: [u8; 4] = [0x6d, 0x76, 0x68, 0x64];
    proof {
        assert(be32(mvhd_tag@, 0) == MVHD as int);
    }
    match crate::boxes::find_box(boxes, &mvhd_tag) {
        None => 1000,
        Some(v) => {
            if v.data.len() >= 16 {
                if v.data[0] == 1 && v.data.len() >= 24 {
                    crate::bytes::read_be_u32(v.data.as_slice(), 20)
                } else {
                    crate::bytes::read_be_u32(v.data.as_slice(), 12)
                }
            } else {
                1000
            }
        },
    }
}

/// Computes the movie duration, saturating at the largest 64-bit
/// value (it is later clamped to 32 bits anyway).
fn movie_duration(tracks: &Vec<TrackFragments>, mts: u32) -> (r: u64)
    requires
        forall|k: int| 0 <= k < tracks@.len() ==> (#[trigger] tracks@[k]).samples@.len()
            < 0x100000000,
    ensures
        clamp32(r as int) == clamp32(max_scaled(track_views(tracks@), mts as int)),
{
    let ghost ts = track_views(tracks@);
    let mut md: u128 = 0;
    let mut i: usize = 0;
    proof {
        assert(ts.take(0) =~= Seq::<SpecTrack>::empty());
    }
    while i < tracks.len()
        invariant
            ts == track_views(tracks@),
            i <= tracks@.len(),
            forall|k: int| 0 <= k < tracks@.len() ==> (#[trigger] tracks@[k]).samples@.len()
                < 0x100000000,
            md == max_scaled(ts.take(i as int), mts as int),
            md <= 0x1000000000000000000000000,
        decreases tracks@.len() - i,
    {
        proof {
            assert(ts.take(i as int + 1).drop_last() =~= ts.take(i as int));
            assert(ts.take(i as int + 1).last() == ts[i as int]);
            lemma_sum_durs_bound(ts[i as int].samples, ts[i as int].samples.len() as int);
            assert(ts[i as int].samples.len() * 0x100000000 <= 0x100000000 * 0x100000000)
                by (nonlinear_arith)
                requires ts[i as int].samples.len() < 0x100000000;
        }
        let t = &tracks[i];
        let td: u128 = total_duration(t.samples.as_slice()) as u128;
        let scaled: u128 = if t.timescale != 0 && t.timescale != mts {
            proof {
                assert(td * (mts as u128) <= 0x10000000000000000 * 0x100000000)
                    by (nonlinear_arith)
                    requires td <= 0x10000000000000000, mts <= 0xffffffffu32;
            }
            td * (mts as u128) / (t.timescale as u128)
        } else {
            td
        };
        proof {
            assert(scaled == scaled_dur(ts[i as int], mts as int));
        }
        if scaled > md {
            md = scaled;
        }
        i = i + 1;
    }
    proof {
        assert(ts.take(ts.len() as int) =~= ts);
    }
    if md > 0xffffffffffffffff {
        0xffffffffffffffffu64
    } else {
        md as u64
    }
}

/// Rebuilds the moov payload, as [`spec_build_moov`] describes.
fn build_regular_moov(moov_data: &[u8], tracks: &Vec<TrackFragments>, offsets: &[u64]) -> (r:
    Result<Vec<u8>, Mp4Error>)
    requires
        forall|k: int| 0 <= k < tracks@.len() ==> (#[trigger] tracks@[k]).samples@.len()
            < 0x100000000,
    ensures
        match r {
            Ok(out) => spec_build_moov(moov_data@, track_views(tracks@), offsets@) == Ok::<
                Seq<u8>,
                Mp4Error,
            >(out@),
            Err(e) => spec_build_moov(moov_data@, track_views(tracks@), offsets@) == Err::<
                Seq<u8>,
                Mp4Error,
            >(e),
        },
{
    proof {
        reveal(spec_build_moov);
    }
    let boxes = match crate::boxes::parse_container_box(moov_data) {
        Ok(bs) => bs,
        Err(e) => {
            return Err(e);
        },
    };
    let ghost cs = crate::boxes::box_views(boxes@);
    let ghost ts = track_views(tracks@);

    let mts = movie_timescale(boxes.as_slice());
    let md64 = movie_duration(tracks, mts);
    let ghost md = max_scaled(ts, mts as int);
    let ghost f = moov_build_fn(ts, offsets@, md);

    let mut output: Vec<u8> = Vec::new();
    let ghost mut racc: Seq<crate::boxes::RawBox> = Seq::empty();
    let mut i: usize = 0;
    proof {
        assert(cs.skip(0) =~= cs);
        match crate::boxes::fold_children(cs, f) {
            Ok(rest) => {
                assert(racc + rest =~= rest);
            },
            Err(_) => {},
        }
        assert(crate::boxes::serialize_raws(racc) =~= Seq::<u8>::empty());
    }
    while i < boxes.len()
        invariant
            cs == crate::boxes::box_views(boxes@),
            ts == track_views(tracks@),
            i <= boxes@.len(),
            forall|k: int| 0 <= k < tracks@.len() ==> (#[trigger] tracks@[k]).samples@.len()
                < 0x100000000,
            clamp32(md64 as int) == clamp32(md),
            md == max_scaled(ts, mts as int),
            f == moov_build_fn(ts, offsets@, md),
            output@ == crate::boxes::serialize_raws(racc),
            crate::boxes::fold_children(cs, f) == match crate::boxes::fold_children(
                cs.skip(i as int),
                f,
            ) {
                Ok(rest) => Ok::<Seq<crate::boxes::RawBox>, Mp4Error>(racc + rest),
                Err(e) => Err::<Seq<crate::boxes::RawBox>, Mp4Error>(e),
            },
            spec_build_moov(moov_data@, track_views(tracks@), offsets@) == match
                crate::boxes::fold_children(cs, f) {
                Ok(raws) => Ok::<Seq<u8>, Mp4Error>(crate::boxes::serialize_raws(raws)),
                Err(e) => Err::<Seq<u8>, Mp4Error>(e),
            },
        decreases boxes@.len() - i,
    {
        proof {
            assert(cs.skip(i as int)[0] == cs[i as int]);
            assert(cs.skip(i as int).drop_first() =~= cs.skip(i as int + 1));
        }
        let ghost prev_racc = racc;
        let b = &boxes[i];
        if crate::boxes::box_type_is(b, MVHD) {
            match update_mvhd_duration(b.data.as_slice(), md64) {
                Ok(new_payload) => {
                    let ghost raw = crate::boxes::RawBox::Boxed { typ: b@.typ, payload: new_payload@ };
                    proof {
                        assert(spec_update_mvhd_dur(b.data@, md64 as int) == spec_update_mvhd_dur(
                            b.data@,
                            md,
                        ));
                        assert(f(cs[i as int]) == Ok::<Seq<crate::boxes::RawBox>, Mp4Error>(
                            seq![raw],
                        ));
                    }
                    crate::boxes::write_box(&mut output, &b.box_type, new_payload.as_slice());
                    proof {
                        crate::boxes::lemma_serialize_raws_push(prev_racc, raw);
                        racc = prev_racc.push(raw);
                        match crate::boxes::fold_children(cs.skip(i as int + 1), f) {
                            Ok(rest) => {
                                assert(prev_racc + (seq![raw] + rest) =~= racc + rest);
                            },
                            Err(_) => {},
                        }
                    }
                },
                Err(e) => {
                    proof {
                        assert(spec_update_mvhd_dur(b.data@, md64 as int) == spec_update_mvhd_dur(
                            b.data@,
                            md,
                        ));
                    }
                    return Err(e);
                },
            }
        } else if crate::boxes::box_type_is(b, TRAK) {
            let trak_boxes = match crate::boxes::parse_container_box(b.data.as_slice()) {
                Ok(bs) => bs,
                Err(e) => {
                    return Err(e);
                },
            };
            let tid = moov_trak_id(trak_boxes.as_slice());
            match find_track_idx(tracks, tid) {
                None => {
                    let ghost raw = crate::boxes::RawBox::Boxed { typ: b@.typ, payload: b.data@ };
                    proof {
                        assert(f(cs[i as int]) == Ok::<Seq<crate::boxes::RawBox>, Mp4Error>(
                            seq![raw],
                        ));
                    }
                    crate::boxes::write_box(&mut output, &b.box_type, b.data.as_slice());
                    proof {
                        crate::boxes::lemma_serialize_raws_push(prev_racc, raw);
                        racc = prev_racc.push(raw);
                        match crate::boxes::fold_children(cs.skip(i as int + 1), f) {
                            Ok(rest) => {
                                assert(prev_racc + (seq![raw] + rest) =~= racc + rest);
                            },
                            Err(_) => {},
                        }
                    }
                },
                Some(pos) => {
                    let base: u64 = if pos < offsets.len() {
                        offsets[pos]
                    } else {
                        8000
                    };
                    match build_regular_trak(b.data.as_slice(), &tracks[pos], base) {
                        Ok(new_payload) => {
                            let ghost raw = crate::boxes::RawBox::Boxed {
                                typ: b@.typ,
                                payload: new_payload@,
                            };
                            proof {
                                assert(f(cs[i as int]) == Ok::<
                                    Seq<crate::boxes::RawBox>,
                                    Mp4Error,
                                >(seq![raw]));
                            }
                            crate::boxes::write_box(
                                &mut output,
                                &b.box_type,
                                new_payload.as_slice(),
                            );
                            proof {
                                crate::boxes::lemma_serialize_raws_push(prev_racc, raw);
                                racc = prev_racc.push(raw);
                                match crate::boxes::fold_children(cs.skip(i as int + 1), f) {
                                    Ok(rest) => {
                                        assert(prev_racc + (seq![raw] + rest) =~= racc + rest);
                                    },
                                    Err(_) => {},
                                }
                            }
                        },
                        Err(e) => {
                            return Err(e);
                        },
                    }
                },
            }
        } else {
            let ghost raw = crate::boxes::RawBox::Boxed { typ: b@.typ, payload: b.data@ };
            proof {
                assert(f(cs[i as int]) == Ok::<Seq<crate::boxes::RawBox>, Mp4Error>(seq![raw]));
            }
            crate::boxes::write_box(&mut output, &b.box_type, b.data.as_slice());
            proof {
                crate::boxes::lemma_serialize_raws_push(prev_racc, raw);
                racc = prev_racc.push(raw);
                match crate::boxes::fold_children(cs.skip(i as int + 1), f) {
                    Ok(rest) => {
                        assert(prev_racc + (seq![raw] + rest) =~= racc + rest);
                    },
                    Err(_) => {},
                }
            }
        }
        i = i + 1;
    }
    proof {
        assert(cs.skip(boxes@.len() as int) =~= Seq::<SpecBox>::empty());
        match crate::boxes::fold_children(cs, f) {
            Ok(raws) => {
                assert(racc + Seq::<crate::boxes::RawBox>::empty() =~= racc);
            },
            Err(_) => {},
        }
    }
    Ok(output)
}


/// The fixed ftyp payload of a defragmented file: major brand isom,
/// minor version 2, compatible brands isom/iso2/avc1/mp41.
pub open spec fn spec_ftyp_payload() -> Seq<u8> {
    seq![
        0x69u8, 0x73, 0x6f, 0x6d,
        0, 0, 0, 2,
        0x69, 0x73, 0x6f, 0x6d,
        0x69, 0x73, 0x6f, 0x32,
        0x61, 0x76, 0x63, 0x31,
        0x6d, 0x70, 0x34, 0x31,
    ]
}

/// The mdat base offset of track `k`: the start of the single mdat's
/// payload plus the payload lengths of the tracks before it
/// (saturating, like every offset computation here).
pub open spec fn base_at(ts: Seq<SpecTrack>, b0: int, k: int) -> int
    decreases k,
{
    if k <= 0 {
        b0
    } else {
        sat_add64(base_at(ts, b0, k - 1), ts[k - 1].mdat.len() as int)
    }
}

/// All track payloads concatenated in track order: the single mdat's
/// payload.
pub open spec fn concat_mdats(ts: Seq<SpecTrack>) -> Seq<u8>
    decreases ts.len(),
{
    if ts.len() == 0 {
        Seq::empty()
    } else {
        ts[0].mdat + concat_mdats(ts.drop_first())
    }
}

/// The rebuilt flat file: a fixed ftyp, the rebuilt moov, and one mdat
/// holding every track's samples back to back in track order. moov is
/// built twice: first with placeholder offsets purely to measure its
/// size, then with the real offsets that size determines.
#[verifier::opaque]
pub open spec fn spec_build_file(mp: Seq<u8>, ts: Seq<SpecTrack>) -> Result<Seq<u8>, Mp4Error> {
    match spec_build_moov(mp, ts, Seq::empty()) {
        Err(e) => Err(e),
        Ok(temp) => {
            let b0 = sat_add64(temp.len() as int, 48);
            let offs = Seq::new(ts.len(), |k: int| base_at(ts, b0, k) as u64);
            match spec_build_moov(mp, ts, offs) {
                Err(e) => Err(e),
                Ok(m2) => Ok(
                    crate::boxes::serialize_box(crate::boxes::FTYP as int, spec_ftyp_payload())
                        + crate::boxes::serialize_box(MOOV as int, m2)
                        + crate::boxes::serialize_box(MDAT as int, concat_mdats(ts)),
                ),
            }
        },
    }
}

/// Assembles the flat file, as [`spec_build_file`] describes.
#[verifier::rlimit(60)]
fn build_regular_mp4(moov_data: &[u8], tracks: &Vec<TrackFragments>) -> (r: Result<
    Vec<u8>,
    Mp4Error,
>)
    requires
        forall|k: int| 0 <= k < tracks@.len() ==> (#[trigger] tracks@[k]).samples@.len()
            < 0x100000000,
    ensures
        match r {
            Ok(out) => spec_build_file(moov_data@, track_views(tracks@)) == Ok::<Seq<u8>, Mp4Error>(
                out@,
            ),
            Err(e) => spec_build_file(moov_data@, track_views(tracks@)) == Err::<Seq<u8>, Mp4Error>(
                e,
            ),
        },
{
    proof {
        reveal(spec_build_file);
    }
    let ghost ts = track_views(tracks@);

    let no_offsets: Vec<u64> = Vec::new();
    proof {
        assert(no_offsets@ =~= Seq::<u64>::empty());
    }
    let temp_moov = match build_regular_moov(moov_data, tracks, no_offsets.as_slice()) {
        Ok(v) => v,
        Err(e) => {
            return Err(e);
        },
    };

    let b0: u64 = if temp_moov.len() as u64 <= 0xffffffffffffffffu64 - 48 {
        temp_moov.len() as u64 + 48
    } else {
        0xffffffffffffffffu64
    };
    proof {
        assert(b0 as int == sat_add64(temp_moov@.len() as int, 48));
    }

    let mut offsets: Vec<u64> = Vec::new();
    let mut cur: u64 = b0;
    let mut k: usize = 0;
    while k < tracks.len()
        invariant
            ts == track_views(tracks@),
            k <= tracks@.len(),
            cur as int == base_at(ts, b0 as int, k as int),
            offsets@.len() == k,
            forall|j: int| 0 <= j < k ==> #[trigger] offsets@[j] as int == base_at(
                ts,
                b0 as int,
                j,
            ),
        decreases tracks@.len() - k,
    {
        offsets.push(cur);
        let ml = tracks[k].mdat_data.len() as u64;
        cur = if cur <= u64::MAX - ml {
            cur + ml
        } else {
            u64::MAX
        };
        k = k + 1;
    }
    proof {
        let offs = Seq::new(ts.len(), |j: int| base_at(ts, b0 as int, j) as u64);
        assert(offsets@ =~= offs);
    }

    let final_moov = match build_regular_moov(moov_data, tracks, offsets.as_slice()) {
        Ok(v) => v,
        Err(e) => {
            return Err(e);
        },
    };

    let ftyp_tag: [u8; 4] = [0x66, 0x74, 0x79, 0x70];
    let moov_tag: [u8; 4] = [0x6d, 0x6f, 0x6f, 0x76];
    let mdat_tag: [u8; 4] = [0x6d, 0x64, 0x61, 0x74];
    proof {
        assert(be32(ftyp_tag@, 0) == crate::boxes::FTYP as int);
        assert(be32(moov_tag@, 0) == MOOV as int);
        assert(be32(mdat_tag@, 0) == MDAT as int);
    }

    let mut ftyp_payload: Vec<u8> = Vec::new();
    crate::bytes::push_be_u32(&mut ftyp_payload, 0x69736f6d);
    crate::bytes::push_be_u32(&mut ftyp_payload, 2);
    crate::bytes::push_be_u32(&mut ftyp_payload, 0x69736f6d);
    crate::bytes::push_be_u32(&mut ftyp_payload, 0x69736f32);
    crate::bytes::push_be_u32(&mut ftyp_payload, 0x61766331);
    crate::bytes::push_be_u32(&mut ftyp_payload, 0x6d703431);
    proof {
        assert(ftyp_payload@ =~= spec_ftyp_payload());
    }

    let mut mdat_data: Vec<u8> = Vec::new();
    let mut t: usize = 0;
    proof {
        assert(ts.skip(0) =~= ts);
        assert(mdat_data@ + concat_mdats(ts) =~= concat_mdats(ts));
    }
    while t < tracks.len()
        invariant
            ts == track_views(tracks@),
            t <= tracks@.len(),
            concat_mdats(ts) == mdat_data@ + concat_mdats(ts.skip(t as int)),
        decreases tracks@.len() - t,
    {
        proof {
            assert(ts.skip(t as int)[0] == ts[t as int]);
            assert(ts.skip(t as int).drop_first() =~= ts.skip(t as int + 1));
        }
        let ghost prev = mdat_data@;
        crate::bytes::push_bytes(&mut mdat_data, tracks[t].mdat_data.as_slice());
        proof {
            assert(prev + (ts[t as int].mdat + concat_mdats(ts.skip(t as int + 1))) =~= mdat_data@
                + concat_mdats(ts.skip(t as int + 1)));
        }
        t = t + 1;
    }
    proof {
        assert(ts.skip(ts.len() as int) =~= Seq::<SpecTrack>::empty());
        assert(concat_mdats(Seq::<SpecTrack>::empty()) =~= Seq::<u8>::empty());
        assert(mdat_data@ + Seq::<u8>::empty() =~= mdat_data@);
    }

    let mut output: Vec<u8> = Vec::new();
    crate::boxes::write_box(&mut output, &ftyp_tag, ftyp_payload.as_slice());
    crate::boxes::write_box(&mut output, &moov_tag, final_moov.as_slice());
    crate::boxes::write_box(&mut output, &mdat_tag, mdat_data.as_slice());
    proof {
        match spec_build_file(moov_data@, ts) {
            Ok(sp) => {
                assert(output@ =~= sp);
            },
            Err(_) => {},
        }
    }
    Ok(output)
}

/// Whether every collected track has few enough samples for the
/// 32-bit sample tables.
pub open spec fn tracks_countable(ts: Seq<SpecTrack>) -> bool {
    forall|k: int| 0 <= k < ts.len() ==> (#[trigger] ts[k]).samples.len() < 0x100000000
}

/// The whole defragmentation, as a function on the file's bytes:
/// collect every track's samples across the moof/mdat pairs, then
/// rebuild a flat ftyp + moov + mdat file. A file without a moof
/// cannot be defragmented; one without a moov is missing a required
/// box; a track whose sample count cannot be held by a 32-bit table
/// is malformed.
#[verifier::opaque]
pub open spec fn spec_defragment(s: Seq<u8>) -> Result<Seq<u8>, Mp4Error> {
    match crate::boxes::spec_parse_top(s, 0) {
        Err(e) => Err(e),
        Ok(es) => {
            if crate::boxes::first_small(es, MOOF as int) is None {
                Err(Mp4Error::NotFragmented)
            } else {
                match crate::boxes::first_small(es, MOOV as int) {
                    None => Err(Mp4Error::MissingRequiredBox),
                    Some(moov) => match spec_tracks_of_moov(moov.payload) {
                        Err(e) => Err(e),
                        Ok(ts0) => match spec_collect_fold(es, s, ts0, None) {
                            Err(e) => Err(e),
                            Ok(ts) => if !tracks_countable(ts) {
                                Err(Mp4Error::MalformedBox)
                            } else {
                                spec_build_file(moov.payload, ts)
                            },
                        },
                    },
                }
            }
        },
    }
}

/// Converts a fragmented MP4 into a flat, progressively-downloadable
/// MP4, exactly as [`spec_defragment`] describes. In particular, for
/// any input whose box tree parses but holds no moof, the result is
/// exactly `Err(Mp4Error::NotFragmented)`.
pub fn defragment_mp4(data: &[u8]) -> (r: Result<Vec<u8>, Mp4Error>)
    ensures
        match r {
            Ok(out) => spec_defragment(data@) == Ok::<Seq<u8>, Mp4Error>(out@),
            Err(e) => spec_defragment(data@) == Err::<Seq<u8>, Mp4Error>(e),
        },
        (crate::boxes::spec_parse_top(data@, 0) matches Ok(es) && crate::boxes::first_small(
            es,
            MOOF as int,
        ) is None) ==> r == Err::<Vec<u8>, Mp4Error>(Mp4Error::NotFragmented),
{
    proof {
        reveal(spec_defragment);
    }
    let mp4 = match crate::boxes::parse_mp4(data) {
        Ok(f) => f,
        Err(e) => {
            return Err(e);
        },
    };

    if !crate::reset::has_moof(mp4.all_boxes_in_order.as_slice()) {
        return Err(Mp4Error::NotFragmented);
    }

    let moov = match &mp4.moov {
        None => {
            return Err(Mp4Error::MissingRequiredBox);
        },
        Some(m) => m,
    };

    let mut tracks = match extract_track_info_from_moov(moov.data.as_slice()) {
        Ok(ts) => ts,
        Err(e) => {
            return Err(e);
        },
    };

    proof {
        crate::boxes::lemma_parse_top_wf(data@, 0);
    }
    match collect_fragment_data(data, mp4.all_boxes_in_order.as_slice(), &mut tracks) {
        Ok(()) => {},
        Err(e) => {
            return Err(e);
        },
    }

    if !all_tracks_countable(&tracks) {
        return Err(Mp4Error::MalformedBox);
    }
    proof {
        assert forall|j: int| 0 <= j < tracks@.len() implies (#[trigger] tracks@[j]).samples@.len()
            < 0x100000000 by {
            assert(track_views(tracks@)[j].samples.len() < 0x100000000);
        }
    }

    build_regular_mp4(moov.data.as_slice(), &tracks)
}

/// Whether every track's sample count fits a 32-bit table.
fn all_tracks_countable(tracks: &Vec<TrackFragments>) -> (r: bool)
    ensures
        r == tracks_countable(track_views(tracks@)),
{
    let mut k: usize = 0;
    while k < tracks.len()
        invariant
            k <= tracks@.len(),
            forall|j: int| 0 <= j < k ==> (#[trigger] track_views(tracks@)[j]).samples.len()
                < 0x100000000,
        decreases tracks@.len() - k,
    {
        if tracks[k].samples.len() as u64 >= 0x100000000u64 {
            proof {
                assert(track_views(tracks@)[k as int].samples.len() >= 0x100000000);
            }
            return false;
        }
        proof {
            assert(track_views(tracks@)[k as int].samples.len() < 0x100000000);
        }
        k = k + 1;
    }
    true
}


/// In a defragmented output, every stco chunk offset falls inside the
/// mdat payload: entry `i` equals the mdat base plus the sizes of the
/// samples before sample `i`, which is at least the base and strictly
/// below the end of the payload whenever every sample has at least
/// one byte and the layout stays below the 32-bit offset limit.
pub proof fn lemma_stco_offsets_in_mdat(ss: Seq<SpecSample>, base: int)
    requires
        0 <= base,
        forall|i: int| 0 <= i < ss.len() ==> 1 <= (#[trigger] ss[i]).size < 0x100000000,
        base + sum_sizes(ss, ss.len() as int) <= 0x100000000,
    ensures
        forall|i: int| 0 <= i < ss.len() ==> {
            &&& base <= #[trigger] be32(spec_build_stco(ss, base), 8 + 4 * i)
            &&& be32(spec_build_stco(ss, base), 8 + 4 * i) < base + sum_sizes(
                ss,
                ss.len() as int,
            )
        },
{
    let out = spec_build_stco(ss, base);
    assert forall|i: int| 0 <= i < ss.len() implies {
        &&& base <= #[trigger] be32(out, 8 + 4 * i)
        &&& be32(out, 8 + 4 * i) < base + sum_sizes(ss, ss.len() as int)
    } by {
        lemma_sum_sizes_bounds(ss, i);
        lemma_sum_sizes_bounds(ss, i + 1);
        lemma_sum_sizes_bounds(ss, ss.len() as int);
        assert(sum_sizes(ss, i + 1) == sum_sizes(ss, i) + ss[i].size);
        assert(sum_sizes(ss, i + 1) <= sum_sizes(ss, ss.len() as int));
        let v = base + sum_sizes(ss, i);
        assert(v + 1 <= base + sum_sizes(ss, i + 1));
        assert(v < base + sum_sizes(ss, ss.len() as int));
        assert(v < 0x100000000);
        assert forall|j: int| 0 <= j < 4 implies out[8 + 4 * i + j] == crate::bytes::be32_bytes(
            v,
        )[j] by {
            let d = 4 * i + j;
            assert(out[8 + d] == crate::bytes::be32_bytes(base + sum_sizes(ss, d / 4))[d % 4]);
            assert(d / 4 == i && d % 4 == j) by (nonlinear_arith)
                requires 4 * i <= d < 4 * (i + 1), i >= 0, j == d - 4 * i, 0 <= j < 4;
        }
        crate::bytes::lemma_be32_roundtrip(v);
        assert(be32(out, 8 + 4 * i) == be32(crate::bytes::be32_bytes(v), 0)) by {
            assert(out[8 + 4 * i] == crate::bytes::be32_bytes(v)[0]);
            assert(out[8 + 4 * i + 1] == crate::bytes::be32_bytes(v)[1]);
            assert(out[8 + 4 * i + 2] == crate::bytes::be32_bytes(v)[2]);
            assert(out[8 + 4 * i + 3] == crate::bytes::be32_bytes(v)[3]);
        };
    }
}

} // verus!
