//! Version-aware readers for the fixed header boxes: mvhd, tkhd, mdhd,
//! hdlr, stts, ctts, stsz, stco, co64, stsc, tfdt, tfhd and trun.
//!
//! Every header box starts with a FullBox prefix (1-byte version,
//! 3-byte flags); field widths then depend on the version byte, and
//! trun/tfhd flag bits select which optional fields are present.

use vstd::prelude::*;
use crate::bytes::{be24, be32, be64};
use crate::Mp4Error;

verus! {

/// The signed 32-bit value whose two's-complement bit pattern is the
/// unsigned value `v`.
pub open spec fn as_signed32(v: int) -> int {
    if v < 0x80000000 {
        v
    } else {
        v - 0x100000000
    }
}

/// The unsigned 32-bit bit pattern of a signed value `v`.
pub open spec fn as_unsigned32(v: int) -> int {
    if v >= 0 {
        v
    } else {
        v + 0x100000000
    }
}

/// Reinterprets an unsigned 32-bit value as signed two's complement.
pub fn u32_to_i32(x: u32) -> (r: i32)
    ensures
        r as int == as_signed32(x as int),
{
    if x < 0x80000000 {
        x as i32
    } else {
        let d = x - 0x80000000;
        i32::MIN + d as i32
    }
}

/// Reinterprets a signed 32-bit value as its unsigned bit pattern.
pub fn i32_to_u32(x: i32) -> (r: u32)
    ensures
        r as int == as_unsigned32(x as int),
{
    if x >= 0 {
        x as u32
    } else {
        let d = x - i32::MIN;
        0x80000000 + d as u32
    }
}

/// Reads the FullBox prefix: the version byte and the 24-bit flags.
pub fn read_full_box_header(data: &[u8]) -> (r: Result<(u8, u32), Mp4Error>)
    ensures
        data@.len() >= 4 ==> r == Ok::<(u8, u32), Mp4Error>(
            (data@[0], be24(data@, 1) as u32),
        ),
        data@.len() < 4 ==> r == Err::<(u8, u32), Mp4Error>(Mp4Error::TruncatedData),
{
    if data.len() < 4 {
        return Err(Mp4Error::TruncatedData);
    }
    let version = data[0];
    let flags = (data[1] as u32) * 0x10000 + (data[2] as u32) * 0x100 + (data[3] as u32);
    Ok((version, flags))
}

/// Timescale, duration and creation/modification times decoded from an
/// mvhd or mdhd payload.
#[derive(Debug, Clone, PartialEq, Eq, Structural)]
pub struct TimestampInfo {
    pub timescale: u32,
    pub duration: u64,
    pub creation_time: u64,
    pub modification_time: u64,
}

/// Decodes the shared mvhd/mdhd timestamp prefix: version 1 stores
/// times and duration as 64-bit fields, version 0 as 32-bit fields.
pub open spec fn spec_timestamp_box(p: Seq<u8>) -> Result<TimestampInfo, Mp4Error> {
    if p.len() < 4 {
        Err(Mp4Error::TruncatedData)
    } else if p[0] == 1 {
        if p.len() < 32 {
            Err(Mp4Error::TruncatedData)
        } else {
            Ok(TimestampInfo {
                timescale: be32(p, 20) as u32,
                duration: be64(p, 24) as u64,
                creation_time: be64(p, 4) as u64,
                modification_time: be64(p, 12) as u64,
            })
        }
    } else {
        if p.len() < 20 {
            Err(Mp4Error::TruncatedData)
        } else {
            Ok(TimestampInfo {
                timescale: be32(p, 12) as u32,
                duration: be32(p, 16) as u64,
                creation_time: be32(p, 4) as u64,
                modification_time: be32(p, 8) as u64,
            })
        }
    }
}

/// Parses an mvhd (movie header) payload.
pub fn parse_mvhd(data: &[u8]) -> (r: Result<TimestampInfo, Mp4Error>)
    ensures
        r == spec_timestamp_box(data@),
{
    parse_timestamp_box(data)
}

/// Parses an mdhd (media header) payload; the layout of the timestamp
/// fields matches mvhd.
pub fn parse_mdhd(data: &[u8]) -> (r: Result<TimestampInfo, Mp4Error>)
    ensures
        r == spec_timestamp_box(data@),
{
    parse_timestamp_box(data)
}

fn parse_timestamp_box(data: &[u8]) -> (r: Result<TimestampInfo, Mp4Error>)
    ensures
        r == spec_timestamp_box(data@),
{
    let (version, _flags) = match read_full_box_header(data) {
        Ok(p) => p,
        Err(e) => {
            return Err(e);
        },
    };
    if version == 1 {
        if data.len() < 32 {
            return Err(Mp4Error::TruncatedData);
        }
        Ok(TimestampInfo {
            timescale: crate::bytes::read_be_u32(data, 20),
            duration: crate::bytes::read_be_u64(data, 24),
            creation_time: crate::bytes::read_be_u64(data, 4),
            modification_time: crate::bytes::read_be_u64(data, 12),
        })
    } else {
        if data.len() < 20 {
            return Err(Mp4Error::TruncatedData);
        }
        Ok(TimestampInfo {
            timescale: crate::bytes::read_be_u32(data, 12),
            duration: crate::bytes::read_be_u32(data, 16) as u64,
            creation_time: crate::bytes::read_be_u32(data, 4) as u64,
            modification_time: crate::bytes::read_be_u32(data, 8) as u64,
        })
    }
}

/// One stts run: `sample_count` consecutive samples share
/// `sample_delta` as their duration.
#[derive(Debug, Clone, Copy, PartialEq, Eq, Structural)]
pub struct SttsEntry {
    pub sample_count: u32,
    pub sample_delta: u32,
}

/// Parses an stts (decoding time to sample) payload: an entry count
/// followed by (count, delta) pairs.
pub fn parse_stts(data: &[u8]) -> (r: Result<Vec<SttsEntry>, Mp4Error>)
    ensures
        match r {
            Ok(es) => {
                &&& data@.len() >= 8
                &&& es@.len() == be32(data@, 4)
                &&& 8 + 8 * es@.len() <= data@.len()
                &&& forall|i: int| 0 <= i < es@.len() ==> {
                    &&& (#[trigger] es@[i]).sample_count == be32(data@, 8 + 8 * i)
                    &&& es@[i].sample_delta == be32(data@, 12 + 8 * i)
                }
            },
            Err(e) => {
                &&& e == Mp4Error::TruncatedData
                &&& (data@.len() < 8 || 8 + 8 * be32(data@, 4) > data@.len())
            },
        },
{
    let n = data.len();
    if n < 8 {
        return Err(Mp4Error::TruncatedData);
    }
    let entry_count = crate::bytes::read_be_u32(data, 4);
    let mut entries: Vec<SttsEntry> = Vec::new();
    let mut i: usize = 0;
    while i < entry_count as usize
        invariant
            n == data@.len(),
            n >= 8,
            i <= entry_count,
            entry_count == be32(data@, 4),
            8 + 8 * i <= n,
            entries@.len() == i,
            forall|j: int| 0 <= j < i ==> {
                &&& (#[trigger] entries@[j]).sample_count == be32(data@, 8 + 8 * j)
                &&& entries@[j].sample_delta == be32(data@, 12 + 8 * j)
            },
        decreases entry_count - i,
    {
        if n - 8 * i < 16 {
            return Err(Mp4Error::TruncatedData);
        }
        let base = 8 + 8 * i;
        entries.push(SttsEntry {
            sample_count: crate::bytes::read_be_u32(data, base),
            sample_delta: crate::bytes::read_be_u32(data, base + 4),
        });
        i = i + 1;
    }
    Ok(entries)
}

/// One ctts run: `sample_count` consecutive samples share the signed
/// composition offset `sample_offset`.
#[derive(Debug, Clone, Copy, PartialEq, Eq, Structural)]
pub struct CttsEntry {
    pub sample_count: u32,
    pub sample_offset: i32,
}

/// Parses a ctts (composition time to sample) payload. The offset
/// field is read as a signed 32-bit value in either version.
pub fn parse_ctts(data: &[u8]) -> (r: Result<Vec<CttsEntry>, Mp4Error>)
    ensures
        match r {
            Ok(es) => {
                &&& data@.len() >= 8
                &&& es@.len() == be32(data@, 4)
                &&& 8 + 8 * es@.len() <= data@.len()
                &&& forall|i: int| 0 <= i < es@.len() ==> {
                    &&& (#[trigger] es@[i]).sample_count == be32(data@, 8 + 8 * i)
                    &&& es@[i].sample_offset as int == as_signed32(be32(data@, 12 + 8 * i))
                }
            },
            Err(e) => {
                &&& e == Mp4Error::TruncatedData
                &&& (data@.len() < 8 || 8 + 8 * be32(data@, 4) > data@.len())
            },
        },
{
    let n = data.len();
    if n < 8 {
        return Err(Mp4Error::TruncatedData);
    }
    let entry_count = crate::bytes::read_be_u32(data, 4);
    let mut entries: Vec<CttsEntry> = Vec::new();
    let mut i: usize = 0;
    while i < entry_count as usize
        invariant
            n == data@.len(),
            n >= 8,
            i <= entry_count,
            entry_count == be32(data@, 4),
            8 + 8 * i <= n,
            entries@.len() == i,
            forall|j: int| 0 <= j < i ==> {
                &&& (#[trigger] entries@[j]).sample_count == be32(data@, 8 + 8 * j)
                &&& entries@[j].sample_offset as int == as_signed32(be32(data@, 12 + 8 * j))
            },
        decreases entry_count - i,
    {
        if n - 8 * i < 16 {
            return Err(Mp4Error::TruncatedData);
        }
        let base = 8 + 8 * i;
        let sample_count = crate::bytes::read_be_u32(data, base);
        let sample_offset = u32_to_i32(crate::bytes::read_be_u32(data, base + 4));
        entries.push(CttsEntry { sample_count, sample_offset });
        i = i + 1;
    }
    Ok(entries)
}

/// Parses an stsz (sample size) payload: a shared size, or one size
/// per sample when the shared size is zero.
pub fn parse_stsz(data: &[u8]) -> (r: Result<Vec<u32>, Mp4Error>)
    ensures
        match r {
            Ok(sizes) => {
                &&& data@.len() >= 12
                &&& sizes@.len() == be32(data@, 8)
                &&& (be32(data@, 4) != 0 ==> forall|i: int|
                    0 <= i < sizes@.len() ==> #[trigger] sizes@[i] == be32(data@, 4))
                &&& (be32(data@, 4) == 0 ==> {
                    &&& 12 + 4 * sizes@.len() <= data@.len()
                    &&& forall|i: int| 0 <= i < sizes@.len() ==> #[trigger] sizes@[i] == be32(
                        data@,
                        12 + 4 * i,
                    )
                })
            },
            Err(e) => {
                &&& e == Mp4Error::TruncatedData
                &&& (data@.len() < 12 || (be32(data@, 4) == 0 && 12 + 4 * be32(data@, 8)
                    > data@.len()))
            },
        },
{
    let n = data.len();
    if n < 12 {
        return Err(Mp4Error::TruncatedData);
    }
    let sample_size = crate::bytes::read_be_u32(data, 4);
    let sample_count = crate::bytes::read_be_u32(data, 8);
    let mut sizes: Vec<u32> = Vec::new();
    if sample_size != 0 {
        let mut i: usize = 0;
        while i < sample_count as usize
            invariant
                i <= sample_count,
                sizes@.len() == i,
                forall|j: int| 0 <= j < i ==> #[trigger] sizes@[j] == sample_size,
            decreases sample_count - i,
        {
            sizes.push(sample_size);
            i = i + 1;
        }
        Ok(sizes)
    } else {
        let mut i: usize = 0;
        while i < sample_count as usize
            invariant
                n == data@.len(),
                n >= 12,
                be32(data@, 4) == 0,
                i <= sample_count,
                sample_count == be32(data@, 8),
                12 + 4 * i <= n,
                sizes@.len() == i,
                forall|j: int| 0 <= j < i ==> #[trigger] sizes@[j] == be32(data@, 12 + 4 * j),
            decreases sample_count - i,
        {
            if n - 4 * i < 16 {
                return Err(Mp4Error::TruncatedData);
            }
            sizes.push(crate::bytes::read_be_u32(data, 12 + 4 * i));
            i = i + 1;
        }
        Ok(sizes)
    }
}

/// Parses an stco (32-bit chunk offset) payload; offsets widen to u64.
pub fn parse_stco(data: &[u8]) -> (r: Result<Vec<u64>, Mp4Error>)
    ensures
        match r {
            Ok(offs) => {
                &&& data@.len() >= 8
                &&& offs@.len() == be32(data@, 4)
                &&& 8 + 4 * offs@.len() <= data@.len()
                &&& forall|i: int| 0 <= i < offs@.len() ==> #[trigger] offs@[i] == be32(
                    data@,
                    8 + 4 * i,
                )
            },
            Err(e) => {
                &&& e == Mp4Error::TruncatedData
                &&& (data@.len() < 8 || 8 + 4 * be32(data@, 4) > data@.len())
            },
        },
{
    let n = data.len();
    if n < 8 {
        return Err(Mp4Error::TruncatedData);
    }
    let entry_count = crate::bytes::read_be_u32(data, 4);
    let mut offsets: Vec<u64> = Vec::new();
    let mut i: usize = 0;
    while i < entry_count as usize
        invariant
            n == data@.len(),
            n >= 8,
            i <= entry_count,
            entry_count == be32(data@, 4),
            8 + 4 * i <= n,
            offsets@.len() == i,
            forall|j: int| 0 <= j < i ==> #[trigger] offsets@[j] == be32(data@, 8 + 4 * j),
        decreases entry_count - i,
    {
        if n - 4 * i < 12 {
            return Err(Mp4Error::TruncatedData);
        }
        offsets.push(crate::bytes::read_be_u32(data, 8 + 4 * i) as u64);
        i = i + 1;
    }
    Ok(offsets)
}

/// Parses a co64 (64-bit chunk offset) payload.
pub fn parse_co64(data: &[u8]) -> (r: Result<Vec<u64>, Mp4Error>)
    ensures
        match r {
            Ok(offs) => {
                &&& data@.len() >= 8
                &&& offs@.len() == be32(data@, 4)
                &&& 8 + 8 * offs@.len() <= data@.len()
                &&& forall|i: int| 0 <= i < offs@.len() ==> #[trigger] offs@[i] == be64(
                    data@,
                    8 + 8 * i,
                )
            },
            Err(e) => {
                &&& e == Mp4Error::TruncatedData
                &&& (data@.len() < 8 || 8 + 8 * be32(data@, 4) > data@.len())
            },
        },
{
    let n = data.len();
    if n < 8 {
        return Err(Mp4Error::TruncatedData);
    }
    let entry_count = crate::bytes::read_be_u32(data, 4);
    let mut offsets: Vec<u64> = Vec::new();
    let mut i: usize = 0;
    while i < entry_count as usize
        invariant
            n == data@.len(),
            n >= 8,
            i <= entry_count,
            entry_count == be32(data@, 4),
            8 + 8 * i <= n,
            offsets@.len() == i,
            forall|j: int| 0 <= j < i ==> #[trigger] offsets@[j] == be64(data@, 8 + 8 * j),
        decreases entry_count - i,
    {
        if n - 8 * i < 16 {
            return Err(Mp4Error::TruncatedData);
        }
        offsets.push(crate::bytes::read_be_u64(data, 8 + 8 * i));
        i = i + 1;
    }
    Ok(offsets)
}

/// One stsc run: starting at `first_chunk`, every chunk holds
/// `samples_per_chunk` samples described by
/// `sample_description_index`.
#[derive(Debug, Clone, Copy, PartialEq, Eq, Structural)]
pub struct StscEntry {
    pub first_chunk: u32,
    pub samples_per_chunk: u32,
    pub sample_description_index: u32,
}

/// Parses an stsc (sample to chunk) payload.
pub fn parse_stsc(data: &[u8]) -> (r: Result<Vec<StscEntry>, Mp4Error>)
    ensures
        match r {
            Ok(es) => {
                &&& data@.len() >= 8
                &&& es@.len() == be32(data@, 4)
                &&& 8 + 12 * es@.len() <= data@.len()
                &&& forall|i: int| 0 <= i < es@.len() ==> {
                    &&& (#[trigger] es@[i]).first_chunk == be32(data@, 8 + 12 * i)
                    &&& es@[i].samples_per_chunk == be32(data@, 12 + 12 * i)
                    &&& es@[i].sample_description_index == be32(data@, 16 + 12 * i)
                }
            },
            Err(e) => {
                &&& e == Mp4Error::TruncatedData
                &&& (data@.len() < 8 || 8 + 12 * be32(data@, 4) > data@.len())
            },
        },
{
    let n = data.len();
    if n < 8 {
        return Err(Mp4Error::TruncatedData);
    }
    let entry_count = crate::bytes::read_be_u32(data, 4);
    let mut entries: Vec<StscEntry> = Vec::new();
    let mut i: usize = 0;
    while i < entry_count as usize
        invariant
            n == data@.len(),
            n >= 8,
            i <= entry_count,
            entry_count == be32(data@, 4),
            8 + 12 * i <= n,
            entries@.len() == i,
            forall|j: int| 0 <= j < i ==> {
                &&& (#[trigger] entries@[j]).first_chunk == be32(data@, 8 + 12 * j)
                &&& entries@[j].samples_per_chunk == be32(data@, 12 + 12 * j)
                &&& entries@[j].sample_description_index == be32(data@, 16 + 12 * j)
            },
        decreases entry_count - i,
    {
        if n - 12 * i < 20 {
            return Err(Mp4Error::TruncatedData);
        }
        let base = 8 + 12 * i;
        entries.push(StscEntry {
            first_chunk: crate::bytes::read_be_u32(data, base),
            samples_per_chunk: crate::bytes::read_be_u32(data, base + 4),
            sample_description_index: crate::bytes::read_be_u32(data, base + 8),
        });
        i = i + 1;
    }
    Ok(entries)
}

// Handler types carried by hdlr boxes.
pub const VIDE: u32 = 0x76696465;
pub const SOUN: u32 = 0x736f756e;

/// The kind of media a track carries, from its hdlr handler type.
#[derive(Debug, Clone, Copy, PartialEq, Eq, Structural)]
pub enum MediaType {
    Video,
    Audio,
    Unknown,
}

/// Decodes an hdlr payload into a media type: the handler tag sits
/// after the FullBox prefix and a 4-byte pre-defined field.
pub open spec fn spec_parse_hdlr(p: Seq<u8>) -> Result<MediaType, Mp4Error> {
    if p.len() < 12 {
        Err(Mp4Error::TruncatedData)
    } else if be32(p, 8) == VIDE {
        Ok(MediaType::Video)
    } else if be32(p, 8) == SOUN {
        Ok(MediaType::Audio)
    } else {
        Ok(MediaType::Unknown)
    }
}

/// Parses an hdlr (handler reference) payload.
pub fn parse_hdlr(data: &[u8]) -> (r: Result<MediaType, Mp4Error>)
    ensures
        r == spec_parse_hdlr(data@),
{
    if data.len() < 12 {
        return Err(Mp4Error::TruncatedData);
    }
    let handler = crate::bytes::read_be_u32(data, 8);
    if handler == VIDE {
        Ok(MediaType::Video)
    } else if handler == SOUN {
        Ok(MediaType::Audio)
    } else {
        Ok(MediaType::Unknown)
    }
}

/// One sample of a flat track: size, absolute file offset, duration
/// and signed composition offset.
#[derive(Debug, Clone, Copy, PartialEq, Eq, Structural)]
pub struct SampleInfo {
    pub size: u32,
    pub offset: u64,
    pub duration: u32,
    pub composition_offset: i32,
}

/// Per-track header data: identifier, time axis, duration and media
/// kind. `samples` is filled by callers that walk the sample tables.
#[derive(Debug, Clone)]
pub struct TrackInfo {
    pub track_id: u32,
    pub timescale: u32,
    pub duration: u64,
    pub media_type: MediaType,
    pub samples: Vec<SampleInfo>,
}

/// The header fields of a track, as a mathematical value.
pub struct SpecTrackInfo {
    pub track_id: int,
    pub timescale: int,
    pub duration: int,
    pub media_type: MediaType,
}

/// The track identifier stored in a tkhd payload; its offset depends
/// on the version byte.
pub open spec fn spec_tkhd_track_id(p: Seq<u8>) -> Result<int, Mp4Error> {
    if p.len() < 4 {
        Err(Mp4Error::TruncatedData)
    } else if p[0] == 1 {
        if p.len() < 24 {
            Err(Mp4Error::TruncatedData)
        } else {
            Ok(be32(p, 20))
        }
    } else {
        if p.len() < 16 {
            Err(Mp4Error::TruncatedData)
        } else {
            Ok(be32(p, 12))
        }
    }
}

/// Reads the track identifier from a tkhd payload.
pub fn tkhd_track_id(data: &[u8]) -> (r: Result<u32, Mp4Error>)
    ensures
        match r {
            Ok(id) => spec_tkhd_track_id(data@) == Ok::<int, Mp4Error>(id as int),
            Err(e) => spec_tkhd_track_id(data@) == Err::<int, Mp4Error>(e),
        },
{
    if data.len() < 4 {
        return Err(Mp4Error::TruncatedData);
    }
    if data[0] == 1 {
        if data.len() < 24 {
            return Err(Mp4Error::TruncatedData);
        }
        Ok(crate::bytes::read_be_u32(data, 20))
    } else {
        if data.len() < 16 {
            return Err(Mp4Error::TruncatedData);
        }
        Ok(crate::bytes::read_be_u32(data, 12))
    }
}

/// Decodes a trak payload into its header fields: track id from tkhd
/// (zero when tkhd is absent), timescale and duration from the
/// required mdia/mdhd, media type from the optional hdlr.
pub open spec fn spec_track_info(p: Seq<u8>) -> Result<SpecTrackInfo, Mp4Error> {
    match crate::boxes::spec_parse_boxes(p, 0) {
        Err(e) => Err(e),
        Ok(bs) => {
            let tid = match crate::boxes::first_box(bs, crate::boxes::TKHD as int) {
                None => Ok(0),
                Some(t) => spec_tkhd_track_id(t.payload),
            };
            match tid {
                Err(e) => Err(e),
                Ok(id) => match crate::boxes::first_box(bs, crate::boxes::MDIA as int) {
                    None => Err(Mp4Error::MissingRequiredBox),
                    Some(mdia) => match crate::boxes::spec_parse_boxes(mdia.payload, 0) {
                        Err(e) => Err(e),
                        Ok(ms) => match crate::boxes::first_box(ms, crate::boxes::MDHD as int) {
                            None => Err(Mp4Error::MissingRequiredBox),
                            Some(mdhd) => match spec_timestamp_box(mdhd.payload) {
                                Err(e) => Err(e),
                                Ok(ti) => match crate::boxes::first_box(
                                    ms,
                                    crate::boxes::HDLR as int,
                                ) {
                                    None => Ok(SpecTrackInfo {
                                        track_id: id,
                                        timescale: ti.timescale as int,
                                        duration: ti.duration as int,
                                        media_type: MediaType::Unknown,
                                    }),
                                    Some(h) => match spec_parse_hdlr(h.payload) {
                                        Err(e) => Err(e),
                                        Ok(mt) => Ok(SpecTrackInfo {
                                            track_id: id,
                                            timescale: ti.timescale as int,
                                            duration: ti.duration as int,
                                            media_type: mt,
                                        }),
                                    },
                                },
                            },
                        },
                    },
                },
            }
        },
    }
}

/// Extracts a track's header information from a trak payload, exactly
/// as [`spec_track_info`] describes; the sample list starts empty.
pub fn extract_track_info(trak_data: &[u8]) -> (r: Result<TrackInfo, Mp4Error>)
    ensures
        match r {
            Ok(t) => {
                &&& spec_track_info(trak_data@) == Ok::<SpecTrackInfo, Mp4Error>(SpecTrackInfo {
                    track_id: t.track_id as int,
                    timescale: t.timescale as int,
                    duration: t.duration as int,
                    media_type: t.media_type,
                })
                &&& t.samples@ =~= Seq::<SampleInfo>::empty()
            },
            Err(e) => spec_track_info(trak_data@) == Err::<SpecTrackInfo, Mp4Error>(e),
        },
{
    let trak_boxes = match crate::boxes::parse_container_box(trak_data) {
        Ok(bs) => bs,
        Err(e) => {
            return Err(e);
        },
    };

    let tkhd_tag: [u8; 4] = [0x74, 0x6b, 0x68, 0x64];
    let mdia_tag: [u8; 4] = [0x6d, 0x64, 0x69, 0x61];
    let mdhd_tag: [u8; 4] = [0x6d, 0x64, 0x68, 0x64];
    let hdlr_tag: [u8; 4] = [0x68, 0x64, 0x6c, 0x72];
    proof {
        assert(be32(tkhd_tag@, 0) == crate::boxes::TKHD as int);
        assert(be32(mdia_tag@, 0) == crate::boxes::MDIA as int);
        assert(be32(mdhd_tag@, 0) == crate::boxes::MDHD as int);
        assert(be32(hdlr_tag@, 0) == crate::boxes::HDLR as int);
    }

    let track_id: u32 = match crate::boxes::find_box(trak_boxes.as_slice(), &tkhd_tag) {
        None => 0,
        Some(tkhd) => match tkhd_track_id(tkhd.data.as_slice()) {
            Ok(id) => id,
            Err(e) => {
                return Err(e);
            },
        },
    };

    let mdia = match crate::boxes::find_box(trak_boxes.as_slice(), &mdia_tag) {
        None => {
            return Err(Mp4Error::MissingRequiredBox);
        },
        Some(b) => b,
    };

    let mdia_boxes = match crate::boxes::parse_container_box(mdia.data.as_slice()) {
        Ok(bs) => bs,
        Err(e) => {
            return Err(e);
        },
    };

    let ti = match crate::boxes::find_box(mdia_boxes.as_slice(), &mdhd_tag) {
        None => {
            return Err(Mp4Error::MissingRequiredBox);
        },
        Some(mdhd) => match parse_mdhd(mdhd.data.as_slice()) {
            Ok(ti) => ti,
            Err(e) => {
                return Err(e);
            },
        },
    };

    let media_type = match crate::boxes::find_box(mdia_boxes.as_slice(), &hdlr_tag) {
        None => MediaType::Unknown,
        Some(h) => match parse_hdlr(h.data.as_slice()) {
            Ok(mt) => mt,
            Err(e) => {
                return Err(e);
            },
        },
    };

    Ok(TrackInfo {
        track_id,
        timescale: ti.timescale,
        duration: ti.duration,
        media_type,
        samples: Vec::new(),
    })
}

/// The mdhd record a moov child contributes to the timestamp list:
/// one record for a trak with a readable mdia/mdhd chain, nothing for
/// any other child.
#[verifier::opaque]
pub open spec fn spec_trak_head(b: crate::boxes::SpecBox) -> Result<Seq<TimestampInfo>, Mp4Error> {
    if b.typ == crate::boxes::TRAK {
        match crate::boxes::spec_find_path(
            b.payload,
            seq![crate::boxes::MDIA as int, crate::boxes::MDHD as int],
        ) {
            Ok(Some(mdhd)) => match spec_timestamp_box(mdhd.payload) {
                Err(e) => Err(e),
                Ok(ti) => Ok(seq![ti]),
            },
            _ => Ok(Seq::empty()),
        }
    } else {
        Ok(Seq::empty())
    }
}

/// Collects the mdhd record of one moov child, as [`spec_trak_head`]
/// describes.
fn trak_head(b: &crate::boxes::Mp4Box) -> (r: Result<Option<TimestampInfo>, Mp4Error>)
    ensures
        match r {
            Ok(Some(ti)) => spec_trak_head(b@) == Ok::<Seq<TimestampInfo>, Mp4Error>(seq![ti]),
            Ok(None) => spec_trak_head(b@) == Ok::<Seq<TimestampInfo>, Mp4Error>(Seq::empty()),
            Err(e) => spec_trak_head(b@) == Err::<Seq<TimestampInfo>, Mp4Error>(e),
        },
{
    proof {
        reveal(spec_trak_head);
    }
    if !crate::boxes::box_type_is(b, crate::boxes::TRAK) {
        return Ok(None);
    }
    let mdia_tag: [u8; 4] = [0x6d, 0x64, 0x69, 0x61];
    let mdhd_tag: [u8; 4] = [0x6d, 0x64, 0x68, 0x64];
    let path: [&[u8; 4]; 2] = [&mdia_tag, &mdhd_tag];
    proof {
        assert(be32(mdia_tag@, 0) == crate::boxes::MDIA as int);
        assert(be32(mdhd_tag@, 0) == crate::boxes::MDHD as int);
        assert(crate::boxes::path_views(path@) =~= seq![
            crate::boxes::MDIA as int,
            crate::boxes::MDHD as int,
        ]);
    }
    match crate::boxes::find_box_path(b.data.as_slice(), path.as_slice()) {
        Ok(Some(mdhd)) => match parse_mdhd(mdhd.data.as_slice()) {
            Ok(ti) => Ok(Some(ti)),
            Err(e) => Err(e),
        },
        _ => Ok(None),
    }
}

/// The timestamp records of a movie: the mvhd record first (when mvhd
/// is present), then one mdhd record per trak that has an mdia/mdhd
/// chain; a trak whose chain is absent or unreadable contributes
/// nothing.
pub open spec fn spec_trak_mdhds(bs: Seq<crate::boxes::SpecBox>) -> Result<
    Seq<TimestampInfo>,
    Mp4Error,
>
    decreases bs.len(),
{
    if bs.len() == 0 {
        Ok(Seq::empty())
    } else {
        match spec_trak_head(bs[0]) {
            Err(e) => Err(e),
            Ok(h) => match spec_trak_mdhds(bs.drop_first()) {
                Err(e) => Err(e),
                Ok(rest) => Ok(h + rest),
            },
        }
    }
}

/// The timestamp records of a parsed file, read from its moov box.
pub open spec fn spec_all_timestamps(moov: Option<crate::boxes::SpecBox>) -> Result<
    Seq<TimestampInfo>,
    Mp4Error,
> {
    match moov {
        None => Ok(Seq::empty()),
        Some(m) => match crate::boxes::spec_parse_boxes(m.payload, 0) {
            Err(e) => Err(e),
            Ok(bs) => {
                let head: Result<Seq<TimestampInfo>, Mp4Error> = match crate::boxes::first_box(
                    bs,
                    crate::boxes::MVHD as int,
                ) {
                    None => Ok(Seq::empty()),
                    Some(v) => match spec_timestamp_box(v.payload) {
                        Err(e) => Err(e),
                        Ok(ti) => Ok(seq![ti]),
                    },
                };
                match head {
                    Err(e) => Err(e),
                    Ok(hs) => match spec_trak_mdhds(bs) {
                        Err(e) => Err(e),
                        Ok(ts) => Ok(hs + ts),
                    },
                }
            },
        },
    }
}

/// Extracts the movie's mvhd record and every track's mdhd record, as
/// [`spec_all_timestamps`] describes.
#[verifier::rlimit(50)]
pub fn extract_all_timestamps(mp4: &crate::boxes::Mp4File) -> (r: Result<
    Vec<TimestampInfo>,
    Mp4Error,
>)
    ensures
        match r {
            Ok(v) => spec_all_timestamps(crate::boxes::opt_box(mp4.moov)) == Ok::<
                Seq<TimestampInfo>,
                Mp4Error,
            >(v@),
            Err(e) => spec_all_timestamps(crate::boxes::opt_box(mp4.moov)) == Err::<
                Seq<TimestampInfo>,
                Mp4Error,
            >(e),
        },
{
    let mut timestamps: Vec<TimestampInfo> = Vec::new();

    let moov = match &mp4.moov {
        None => {
            return Ok(timestamps);
        },
        Some(m) => m,
    };

    let moov_boxes = match crate::boxes::parse_container_box(moov.data.as_slice()) {
        Ok(bs) => bs,
        Err(e) => {
            return Err(e);
        },
    };
    let ghost bs = crate::boxes::box_views(moov_boxes@);

    let mvhd_tag: [u8; 4] = [0x6d, 0x76, 0x68, 0x64];
    proof {
        assert(be32(mvhd_tag@, 0) == crate::boxes::MVHD as int);
    }

    match crate::boxes::find_box(moov_boxes.as_slice(), &mvhd_tag) {
        None => {},
        Some(v) => match parse_mvhd(v.data.as_slice()) {
            Ok(ti) => {
                timestamps.push(ti);
            },
            Err(e) => {
                return Err(e);
            },
        },
    }
    let ghost head = timestamps@;

    let mut i: usize = 0;
    proof {
        assert(bs.skip(0) =~= bs);
        assert(timestamps@.skip(head.len() as int) =~= Seq::<TimestampInfo>::empty());
        match spec_trak_mdhds(bs) {
            Ok(rest) => {
                assert(Seq::<TimestampInfo>::empty() + rest =~= rest);
            },
            Err(_) => {},
        }
    }
    while i < moov_boxes.len()
        invariant
            bs == crate::boxes::box_views(moov_boxes@),
            i <= moov_boxes@.len(),
            timestamps@.len() >= head.len(),
            timestamps@.subrange(0, head.len() as int) == head,
            spec_all_timestamps(crate::boxes::opt_box(mp4.moov)) == match spec_trak_mdhds(bs) {
                Ok(ts) => Ok::<Seq<TimestampInfo>, Mp4Error>(head + ts),
                Err(e) => Err::<Seq<TimestampInfo>, Mp4Error>(e),
            },
            spec_trak_mdhds(bs) == match spec_trak_mdhds(bs.skip(i as int)) {
                Ok(rest) => Ok::<Seq<TimestampInfo>, Mp4Error>(
                    timestamps@.skip(head.len() as int) + rest,
                ),
                Err(e) => Err::<Seq<TimestampInfo>, Mp4Error>(e),
            },
        decreases moov_boxes@.len() - i,
    {
        let ghost acc0: Seq<TimestampInfo> = timestamps@.skip(head.len() as int);
        proof {
            assert(bs.skip(i as int)[0] == bs[i as int]);
            assert(bs.skip(i as int).drop_first() =~= bs.skip(i as int + 1));
        }
        let b = &moov_boxes[i];
        match trak_head(b) {
            Ok(Some(ti)) => {
                timestamps.push(ti);
                proof {
                    assert(timestamps@.subrange(0, head.len() as int) =~= head);
                    assert(timestamps@.skip(head.len() as int) =~= acc0.push(ti));
                    match spec_trak_mdhds(bs.skip(i as int + 1)) {
                        Ok(rest) => {
                            assert(acc0 + (seq![ti] + rest) =~= acc0.push(ti) + rest);
                        },
                        Err(_) => {},
                    }
                }
            },
            Ok(None) => {
                proof {
                    match spec_trak_mdhds(bs.skip(i as int + 1)) {
                        Ok(rest) => {
                            assert(acc0 + (Seq::<TimestampInfo>::empty() + rest) =~= acc0 + rest);
                        },
                        Err(_) => {},
                    }
                }
            },
            Err(e) => {
                return Err(e);
            },
        }
        i = i + 1;
    }

    proof {
        assert(bs.skip(moov_boxes@.len() as int) =~= Seq::<crate::boxes::SpecBox>::empty());
        match spec_trak_mdhds(bs) {
            Ok(ts) => {
                assert(timestamps@.skip(head.len() as int) + Seq::<TimestampInfo>::empty()
                    =~= timestamps@.skip(head.len() as int));
                assert(timestamps@ =~= head + timestamps@.skip(head.len() as int));
                assert(timestamps@ =~= head + ts);
            },
            Err(_) => {},
        }
    }
    Ok(timestamps)
}

/// The baseMediaDecodeTime stored in a tfdt payload: 64-bit for
/// version 1, 32-bit otherwise; zero when the payload is too short to
/// hold the field.
pub open spec fn spec_tfdt_value(p: Seq<u8>) -> int {
    if p.len() < 8 {
        0
    } else if p[0] == 1 && p.len() >= 12 {
        be64(p, 4)
    } else {
        be32(p, 4)
    }
}

/// Reads the decode time from a tfdt payload.
pub fn read_tfdt_value(data: &[u8]) -> (r: u64)
    ensures
        r == spec_tfdt_value(data@),
{
    if data.len() < 8 {
        return 0;
    }
    if data[0] == 1 && data.len() >= 12 {
        crate::bytes::read_be_u64(data, 4)
    } else {
        crate::bytes::read_be_u32(data, 4) as u64
    }
}

/// The sum of up to `k` 32-bit values laid out `stride` bytes apart
/// from `pos`, stopping early where a value no longer fits.
pub open spec fn spec_dur_sum(p: Seq<u8>, pos: int, stride: int, k: int) -> int
    decreases k,
{
    if k <= 0 || pos + 4 > p.len() {
        0
    } else {
        be32(p, pos) + spec_dur_sum(p, pos + stride, stride, k - 1)
    }
}

/// Where a trun's per-sample entries start: after the FullBox prefix,
/// the sample count, and the optional data_offset and
/// first_sample_flags fields.
pub open spec fn spec_trun_entry_base(f: u32) -> int {
    8 + (if f & 0x000001 != 0 { 4int } else { 0 }) + (if f & 0x000004 != 0 { 4int } else { 0 })
}

/// The width of one trun per-sample entry under flag word `f`.
pub open spec fn spec_trun_stride(f: u32) -> int {
    (if f & 0x000100 != 0 { 4int } else { 0 }) + (if f & 0x000200 != 0 { 4int } else { 0 }) + (
    if f & 0x000400 != 0 { 4int } else { 0 }) + (if f & 0x000800 != 0 { 4int } else { 0 })
}

/// The sum of a trun's per-sample durations, when the duration flag is
/// set; zero otherwise.
pub open spec fn spec_trun_duration(p: Seq<u8>) -> int {
    if p.len() < 12 {
        0
    } else {
        let f = be24(p, 1) as u32;
        if f & 0x000100 == 0 {
            0
        } else {
            spec_dur_sum(p, spec_trun_entry_base(f), spec_trun_stride(f), be32(p, 4))
        }
    }
}

/// Each partial duration sum fits below `k * 0xffffffff`.
proof fn lemma_dur_sum_bound(p: Seq<u8>, pos: int, stride: int, k: int)
    ensures
        0 <= spec_dur_sum(p, pos, stride, k),
        spec_dur_sum(p, pos, stride, k) <= (if k >= 0 { k } else { 0 }) * 0xffffffff,
    decreases k,
{
    if k <= 0 || pos + 4 > p.len() {
    } else {
        lemma_dur_sum_bound(p, pos + stride, stride, k - 1);
        assert(be32(p, pos) <= 0xffffffff);
        assert((k - 1) * 0xffffffff + 0xffffffff == k * 0xffffffff) by (nonlinear_arith);
    }
}

/// Sums the per-sample durations declared by a trun payload, exactly
/// as [`spec_trun_duration`] describes.
pub(crate) fn calculate_trun_duration(data: &[u8]) -> (r: u64)
    ensures
        r == spec_trun_duration(data@),
{
    let n = data.len();
    if n < 12 {
        return 0;
    }
    let (_version, flags) = match read_full_box_header(data) {
        Ok(p) => p,
        Err(_) => {
            return 0;
        },
    };
    if flags & 0x000100 == 0 {
        return 0;
    }
    let sample_count = crate::bytes::read_be_u32(data, 4);

    let mut base: usize = 8;
    if flags & 0x000001 != 0 {
        base = base + 4;
    }
    if flags & 0x000004 != 0 {
        base = base + 4;
    }
    let mut stride: usize = 4;
    if flags & 0x000200 != 0 {
        stride = stride + 4;
    }
    if flags & 0x000400 != 0 {
        stride = stride + 4;
    }
    if flags & 0x000800 != 0 {
        stride = stride + 4;
    }
    proof {
        assert(base == spec_trun_entry_base(flags));
        assert(stride == spec_trun_stride(flags));
    }

    let ghost whole = spec_dur_sum(data@, base as int, stride as int, sample_count as int);
    proof {
        lemma_dur_sum_bound(data@, base as int, stride as int, sample_count as int);
    }

    let mut total: u64 = 0;
    let mut pos: usize = base;
    let mut i: u32 = 0;
    while i < sample_count
        invariant_except_break
            whole == total + spec_dur_sum(
                data@,
                pos as int,
                stride as int,
                sample_count - i,
            ),
        invariant
            n == data@.len(),
            i <= sample_count,
            pos <= n || pos == base,
            4 <= stride <= 20,
            whole == spec_dur_sum(data@, base as int, stride as int, sample_count as int),
        ensures
            total == whole,
        decreases sample_count - i,
    {
        if pos > n || n - pos < 4 {
            proof {
                assert(spec_dur_sum(data@, pos as int, stride as int, sample_count - i) == 0);
            }
            break;
        }
        let d = crate::bytes::read_be_u32(data, pos);
        proof {
            lemma_dur_sum_bound(
                data@,
                pos as int + stride as int,
                stride as int,
                sample_count - i - 1,
            );
            assert(spec_dur_sum(data@, pos as int, stride as int, sample_count - i) == d
                + spec_dur_sum(
                data@,
                pos as int + stride as int,
                stride as int,
                sample_count - i - 1,
            ));
            lemma_dur_sum_bound(data@, pos as int, stride as int, sample_count - i);
            lemma_dur_sum_bound(data@, base as int, stride as int, sample_count as int);
            assert(total + d <= whole);
            assert(whole <= sample_count * 0xffffffff);
            assert(sample_count * 0xffffffff <= 0xffffffff * 0xffffffff) by (nonlinear_arith)
                requires sample_count <= 0xffffffffu32;
        }
        total = total + d as u64;
        i = i + 1;
        if n - pos < stride {
            proof {
                assert(pos + stride + 4 > n);
                assert(spec_dur_sum(
                    data@,
                    pos as int + stride as int,
                    stride as int,
                    sample_count - i,
                ) == 0);
            }
            break;
        }
        pos = pos + stride;
    }
    proof {
        if i == sample_count {
            assert(spec_dur_sum(data@, pos as int, stride as int, 0) == 0);
        }
    }
    total
}

/// One sample's metadata inside a fragment, after tfhd defaults have
/// been applied.
#[derive(Debug, Clone, Copy, PartialEq, Eq, Structural)]
pub struct SampleDescriptor {
    pub duration: u32,
    pub size: u32,
    pub flags: u32,
    pub composition_time_offset: i32,
}

/// Mathematical value of one fragment sample.
pub struct SpecSample {
    pub duration: int,
    pub size: int,
    pub flags: int,
    pub composition_time_offset: int,
}

impl View for SampleDescriptor {
    type V = SpecSample;

    open spec fn view(&self) -> SpecSample {
        SpecSample {
            duration: self.duration as int,
            size: self.size as int,
            flags: self.flags as int,
            composition_time_offset: self.composition_time_offset as int,
        }
    }
}

/// The views of a sample vector, in order.
pub open spec fn sample_views(v: Seq<SampleDescriptor>) -> Seq<SpecSample> {
    v.map_values(|s: SampleDescriptor| s@)
}

/// The sample `i` described by a trun payload under flag word `f`,
/// with absent fields taken from the given defaults.
pub open spec fn spec_trun_sample(p: Seq<u8>, f: u32, i: int, dd: int, ds: int, df: int)
    -> SpecSample {
    let base = spec_trun_entry_base(f) + i * spec_trun_stride(f);
    let off_size = if f & 0x000100 != 0 { 4int } else { 0 };
    let off_flags = off_size + (if f & 0x000200 != 0 { 4int } else { 0 });
    let off_comp = off_flags + (if f & 0x000400 != 0 { 4int } else { 0 });
    SpecSample {
        duration: if f & 0x000100 != 0 { be32(p, base) } else { dd },
        size: if f & 0x000200 != 0 { be32(p, base + off_size) } else { ds },
        flags: if f & 0x000400 != 0 { be32(p, base + off_flags) } else { df },
        composition_time_offset: if f & 0x000800 != 0 {
            as_signed32(be32(p, base + off_comp))
        } else {
            0
        },
    }
}

/// Decodes a trun payload into its samples and optional data offset.
/// A payload shorter than a header yields no samples; declared fields
/// that exceed the payload are a parse error.
pub open spec fn spec_trun_samples(p: Seq<u8>, dd: int, ds: int, df: int) -> Result<
    (Seq<SpecSample>, Option<int>),
    Mp4Error,
> {
    if p.len() < 8 {
        Ok((Seq::empty(), None))
    } else {
        let f = be24(p, 1) as u32;
        let count = be32(p, 4);
        if f & 0x000001 != 0 && p.len() < 12 {
            Err(Mp4Error::TruncatedData)
        } else if spec_trun_entry_base(f) > p.len() {
            Err(Mp4Error::TruncatedData)
        } else if spec_trun_entry_base(f) + count * spec_trun_stride(f) > p.len() {
            Err(Mp4Error::TruncatedData)
        } else {
            let doff = if f & 0x000001 != 0 { Some(as_signed32(be32(p, 8))) } else { None };
            Ok((Seq::new(count as nat, |i: int| spec_trun_sample(p, f, i, dd, ds, df)), doff))
        }
    }
}

/// Parses a trun (track fragment run) payload, applying the tfhd
/// defaults to absent per-sample fields, exactly as
/// [`spec_trun_samples`] describes.
pub fn parse_trun_samples(
    trun_data: &[u8],
    default_duration: u32,
    default_size: u32,
    default_flags: u32,
) -> (r: Result<(Vec<SampleDescriptor>, Option<i32>), Mp4Error>)
    ensures
        match r {
            Ok((v, doff)) => spec_trun_samples(
                trun_data@,
                default_duration as int,
                default_size as int,
                default_flags as int,
            ) == Ok::<(Seq<SpecSample>, Option<int>), Mp4Error>(
                (
                    sample_views(v@),
                    match doff {
                        Some(x) => Some(x as int),
                        None => None,
                    },
                ),
            ),
            Err(e) => spec_trun_samples(
                trun_data@,
                default_duration as int,
                default_size as int,
                default_flags as int,
            ) == Err::<(Seq<SpecSample>, Option<int>), Mp4Error>(e),
        },
{
    let n = trun_data.len();
    if n < 8 {
        let empty: Vec<SampleDescriptor> = Vec::new();
        proof {
            assert(sample_views(empty@) =~= Seq::<SpecSample>::empty());
        }
        return Ok((empty, None));
    }
    let (_version, flags) = match read_full_box_header(trun_data) {
        Ok(p) => p,
        Err(e) => {
            return Err(e);
        },
    };
    let sample_count = crate::bytes::read_be_u32(trun_data, 4);

    let mut data_offset: Option<i32> = None;
    if flags & 0x000001 != 0 {
        if n < 12 {
            return Err(Mp4Error::TruncatedData);
        }
        data_offset = Some(u32_to_i32(crate::bytes::read_be_u32(trun_data, 8)));
    }

    let mut base: usize = 8;
    if flags & 0x000001 != 0 {
        base = base + 4;
    }
    if flags & 0x000004 != 0 {
        base = base + 4;
    }
    if base > n {
        return Err(Mp4Error::TruncatedData);
    }
    let mut stride: usize = 0;
    if flags & 0x000100 != 0 {
        stride = stride + 4;
    }
    if flags & 0x000200 != 0 {
        stride = stride + 4;
    }
    if flags & 0x000400 != 0 {
        stride = stride + 4;
    }
    if flags & 0x000800 != 0 {
        stride = stride + 4;
    }
    proof {
        assert(base == spec_trun_entry_base(flags));
        assert(stride == spec_trun_stride(flags));
    }

    // The declared entries must fit in the payload.
    if stride != 0 && (((n - base) / stride) as u64) < (sample_count as u64) {
        proof {
            assert(spec_trun_entry_base(flags) + sample_count * spec_trun_stride(flags)
                > n) by (nonlinear_arith)
                requires
                    base == spec_trun_entry_base(flags),
                    stride == spec_trun_stride(flags),
                    base <= n,
                    stride > 0,
                    ((n - base) / stride as int) < sample_count,
            ;
        }
        return Err(Mp4Error::TruncatedData);
    }
    proof {
        if stride != 0 {
            assert(spec_trun_entry_base(flags) + sample_count * spec_trun_stride(flags)
                <= n) by (nonlinear_arith)
                requires
                    base == spec_trun_entry_base(flags),
                    stride == spec_trun_stride(flags),
                    base <= n,
                    stride > 0,
                    ((n - base) / stride as int) >= sample_count,
            ;
        } else {
            assert(sample_count * spec_trun_stride(flags) == 0) by (nonlinear_arith)
                requires spec_trun_stride(flags) == 0;
        }
    }

    let mut samples: Vec<SampleDescriptor> = Vec::new();
    let mut i: u32 = 0;
    while i < sample_count
        invariant
            n == trun_data@.len(),
            i <= sample_count,
            base == spec_trun_entry_base(flags),
            stride == spec_trun_stride(flags),
            base + sample_count * stride <= n,
            samples@.len() == i,
            forall|j: int| 0 <= j < i ==> (#[trigger] samples@[j])@ == spec_trun_sample(
                trun_data@,
                flags,
                j,
                default_duration as int,
                default_size as int,
                default_flags as int,
            ),
        decreases sample_count - i,
    {
        proof {
            assert(base + (i + 1) * stride <= base + sample_count * stride) by (nonlinear_arith)
                requires i + 1 <= sample_count, stride >= 0, base >= 0;
            assert((i + 1) * stride == i * stride + stride) by (nonlinear_arith);
            assert(i * stride >= 0) by (nonlinear_arith)
                requires i >= 0, stride >= 0;
        }
        let entry = base + (i as usize) * stride;
        let mut pos = entry;
        let mut duration = default_duration;
        let mut size = default_size;
        let mut sflags = default_flags;
        let mut comp: i32 = 0;
        if flags & 0x000100 != 0 {
            duration = crate::bytes::read_be_u32(trun_data, pos);
            pos = pos + 4;
        }
        if flags & 0x000200 != 0 {
            size = crate::bytes::read_be_u32(trun_data, pos);
            pos = pos + 4;
        }
        if flags & 0x000400 != 0 {
            sflags = crate::bytes::read_be_u32(trun_data, pos);
            pos = pos + 4;
        }
        if flags & 0x000800 != 0 {
            comp = u32_to_i32(crate::bytes::read_be_u32(trun_data, pos));
        }
        samples.push(SampleDescriptor {
            duration,
            size,
            flags: sflags,
            composition_time_offset: comp,
        });
        i = i + 1;
    }

    proof {
        assert(sample_views(samples@) =~= Seq::new(
            sample_count as nat,
            |j: int| spec_trun_sample(
                trun_data@,
                flags,
                j,
                default_duration as int,
                default_size as int,
                default_flags as int,
            ),
        ));
    }
    Ok((samples, data_offset))
}

/// Per-fragment defaults read from a tfhd payload.
pub struct SpecTfhd {
    pub track_id: int,
    pub default_duration: int,
    pub default_size: int,
    pub default_flags: int,
}

/// Decodes a tfhd payload: the track id, then the optional defaults
/// its flag word declares (absent defaults are zero).
pub open spec fn spec_parse_tfhd(p: Seq<u8>) -> Result<SpecTfhd, Mp4Error> {
    if p.len() < 8 {
        Err(Mp4Error::TruncatedData)
    } else {
        let f = be24(p, 1) as u32;
        let base = 8 + (if f & 0x000001 != 0 { 8int } else { 0 }) + (if f & 0x000002 != 0 {
            4int
        } else {
            0
        });
        let need = base + (if f & 0x000008 != 0 { 4int } else { 0 }) + (if f & 0x000010 != 0 {
            4int
        } else {
            0
        }) + (if f & 0x000020 != 0 { 4int } else { 0 });
        if need > p.len() {
            Err(Mp4Error::TruncatedData)
        } else {
            let dur_off = base;
            let size_off = dur_off + (if f & 0x000008 != 0 { 4int } else { 0 });
            let flags_off = size_off + (if f & 0x000010 != 0 { 4int } else { 0 });
            Ok(SpecTfhd {
                track_id: be32(p, 4),
                default_duration: if f & 0x000008 != 0 { be32(p, dur_off) } else { 0 },
                default_size: if f & 0x000010 != 0 { be32(p, size_off) } else { 0 },
                default_flags: if f & 0x000020 != 0 { be32(p, flags_off) } else { 0 },
            })
        }
    }
}

/// Parses a tfhd (track fragment header) payload, exactly as
/// [`spec_parse_tfhd`] describes.
pub fn parse_tfhd(data: &[u8]) -> (r: Result<(u32, u32, u32, u32), Mp4Error>)
    ensures
        match r {
            Ok((tid, dd, ds, df)) => spec_parse_tfhd(data@) == Ok::<SpecTfhd, Mp4Error>(
                SpecTfhd {
                    track_id: tid as int,
                    default_duration: dd as int,
                    default_size: ds as int,
                    default_flags: df as int,
                },
            ),
            Err(e) => spec_parse_tfhd(data@) == Err::<SpecTfhd, Mp4Error>(e),
        },
{
    let n = data.len();
    if n < 8 {
        return Err(Mp4Error::TruncatedData);
    }
    let (_version, flags) = match read_full_box_header(data) {
        Ok(p) => p,
        Err(e) => {
            return Err(e);
        },
    };
    let track_id = crate::bytes::read_be_u32(data, 4);

    let mut pos: usize = 8;
    if flags & 0x000001 != 0 {
        pos = pos + 8;
    }
    if flags & 0x000002 != 0 {
        pos = pos + 4;
    }
    let mut need = pos;
    if flags & 0x000008 != 0 {
        need = need + 4;
    }
    if flags & 0x000010 != 0 {
        need = need + 4;
    }
    if flags & 0x000020 != 0 {
        need = need + 4;
    }
    if need > n {
        return Err(Mp4Error::TruncatedData);
    }

    let mut default_duration: u32 = 0;
    let mut default_size: u32 = 0;
    let mut default_flags: u32 = 0;
    if flags & 0x000008 != 0 {
        default_duration = crate::bytes::read_be_u32(data, pos);
        pos = pos + 4;
    }
    if flags & 0x000010 != 0 {
        default_size = crate::bytes::read_be_u32(data, pos);
        pos = pos + 4;
    }
    if flags & 0x000020 != 0 {
        default_flags = crate::bytes::read_be_u32(data, pos);
    }
    Ok((track_id, default_duration, default_size, default_flags))
}

} // verus!
