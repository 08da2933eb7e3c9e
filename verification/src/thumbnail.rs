//! Keyframe extraction from flat MP4: a simple consumer of box
//! lookups. The first sample of the first trak is read out of mdat by
//! its stsz-declared size and converted from AVCC framing
//! (length-prefixed NAL units) to Annex-B framing (start codes).

use vstd::prelude::*;
use crate::bytes::be32;
use crate::Mp4Error;

verus! {

/// The Annex-B conversion of an AVCC byte stream from offset `off`:
/// each 4-byte length prefix is replaced by the 00 00 00 01 start
/// code; scanning stops at a truncated prefix or unit.
pub open spec fn spec_avcc_to_annexb(s: Seq<u8>, off: int) -> Seq<u8>
    decreases s.len() - off,
{
    if off < 0 || off + 4 > s.len() {
        Seq::empty()
    } else {
        let nal_len = be32(s, off);
        if off + 4 + nal_len > s.len() {
            Seq::empty()
        } else {
            seq![0u8, 0, 0, 1] + s.subrange(off + 4, off + 4 + nal_len) + spec_avcc_to_annexb(
                s,
                off + 4 + nal_len,
            )
        }
    }
}

/// Converts AVCC framing (length-prefixed NAL units) to Annex-B
/// framing (start-code prefixed), exactly as [`spec_avcc_to_annexb`]
/// describes.
pub fn convert_avcc_to_annexb(avcc_data: &[u8]) -> (r: Result<Vec<u8>, Mp4Error>)
    ensures
        r matches Ok(out) && out@ == spec_avcc_to_annexb(avcc_data@, 0),
{
    let n = avcc_data.len();
    let mut annexb: Vec<u8> = Vec::new();
    let mut off: usize = 0;
    proof {
        assert(annexb@ + spec_avcc_to_annexb(avcc_data@, 0) =~= spec_avcc_to_annexb(
            avcc_data@,
            0,
        ));
    }
    while n - off >= 4
        invariant_except_break
            n == avcc_data@.len(),
            off <= n,
            spec_avcc_to_annexb(avcc_data@, 0) == annexb@ + spec_avcc_to_annexb(
                avcc_data@,
                off as int,
            ),
        ensures
            annexb@ == spec_avcc_to_annexb(avcc_data@, 0),
        decreases n - off,
    {
        let nal_len = crate::bytes::read_be_u32(avcc_data, off) as usize;
        if nal_len > n - off - 4 {
            proof {
                assert(spec_avcc_to_annexb(avcc_data@, off as int) =~= Seq::<u8>::empty());
                assert(annexb@ + Seq::<u8>::empty() =~= annexb@);
            }
            break;
        }
        let ghost prev = annexb@;
        crate::bytes::push_be_u32(&mut annexb, 1);
        let unit = vstd::slice::slice_subrange(avcc_data, off + 4, off + 4 + nal_len);
        crate::bytes::push_bytes(&mut annexb, unit);
        proof {
            assert(crate::bytes::be32_bytes(1) =~= seq![0u8, 0, 0, 1]);
            assert(prev + (seq![0u8, 0, 0, 1] + avcc_data@.subrange(
                off + 4,
                off + 4 + nal_len,
            ) + spec_avcc_to_annexb(avcc_data@, off + 4 + nal_len)) =~= annexb@
                + spec_avcc_to_annexb(avcc_data@, off + 4 + nal_len));
        }
        off = off + 4 + nal_len;
    }
    proof {
        if n - off < 4 {
            assert(spec_avcc_to_annexb(avcc_data@, off as int) =~= Seq::<u8>::empty());
            assert(annexb@ + Seq::<u8>::empty() =~= annexb@);
        }
    }
    Ok(annexb)
}

/// The offset of the first top-level box with the given tag: boxes
/// are scanned by their 32-bit sizes; a box whose size is below 8 is
/// malformed, and a missing box (or one whose declared span leaves
/// the buffer) is a missing required box.
pub open spec fn spec_scan_box(s: Seq<u8>, off: int, typ: int) -> Result<int, Mp4Error>
    decreases s.len() - off,
{
    if off < 0 || off + 8 > s.len() {
        Err(Mp4Error::MissingRequiredBox)
    } else {
        let size = be32(s, off);
        if size < 8 {
            Err(Mp4Error::MalformedBox)
        } else if be32(s, off + 4) == typ {
            Ok(off)
        } else if off + size > s.len() {
            Err(Mp4Error::MissingRequiredBox)
        } else {
            spec_scan_box(s, off + size, typ)
        }
    }
}

fn scan_box(data: &[u8], box_type: u32) -> (r: Result<usize, Mp4Error>)
    ensures
        match r {
            Ok(off) => {
                &&& spec_scan_box(data@, 0, box_type as int) == Ok::<int, Mp4Error>(off as int)
                &&& off + 8 <= data@.len()
            },
            Err(e) => spec_scan_box(data@, 0, box_type as int) == Err::<int, Mp4Error>(e),
        },
{
    let n = data.len();
    let mut off: usize = 0;
    while off <= n && n - off >= 8
        invariant
            n == data@.len(),
            off <= n,
            spec_scan_box(data@, 0, box_type as int) == spec_scan_box(
                data@,
                off as int,
                box_type as int,
            ),
        decreases n - off,
    {
        let size = crate::bytes::read_be_u32(data, off) as usize;
        if size < 8 {
            return Err(Mp4Error::MalformedBox);
        }
        if crate::bytes::read_be_u32(data, off + 4) == box_type {
            return Ok(off);
        }
        if size > n - off {
            return Err(Mp4Error::MissingRequiredBox);
        }
        off = off + size;
    }
    Err(Mp4Error::MissingRequiredBox)
}

/// The offset of the first box with the given tag among the children
/// of the container at `coff`.
pub open spec fn spec_scan_in_container(s: Seq<u8>, coff: int, typ: int) -> Result<
    int,
    Mp4Error,
> {
    if coff < 0 || coff + 8 > s.len() {
        Err(Mp4Error::MissingRequiredBox)
    } else {
        spec_scan_children(s, coff + 8, coff + be32(s, coff), typ)
    }
}

pub open spec fn spec_scan_children(s: Seq<u8>, off: int, cend: int, typ: int) -> Result<
    int,
    Mp4Error,
>
    decreases s.len() - off,
{
    if off < 0 || off + 8 > cend || off + 8 > s.len() {
        Err(Mp4Error::MissingRequiredBox)
    } else {
        let size = be32(s, off);
        if size < 8 {
            Err(Mp4Error::MalformedBox)
        } else if be32(s, off + 4) == typ {
            Ok(off)
        } else if off + size > s.len() {
            Err(Mp4Error::MissingRequiredBox)
        } else {
            spec_scan_children(s, off + size, cend, typ)
        }
    }
}

fn scan_in_container(data: &[u8], container_offset: usize, box_type: u32) -> (r: Result<
    usize,
    Mp4Error,
>)
    requires
        container_offset + 8 <= data@.len(),
    ensures
        match r {
            Ok(off) => {
                &&& spec_scan_in_container(data@, container_offset as int, box_type as int)
                    == Ok::<int, Mp4Error>(off as int)
                &&& off + 8 <= data@.len()
            },
            Err(e) => spec_scan_in_container(data@, container_offset as int, box_type as int)
                == Err::<int, Mp4Error>(e),
        },
{
    let n = data.len();
    let csize = crate::bytes::read_be_u32(data, container_offset) as usize;
    let ghost cend = container_offset as int + be32(data@, container_offset as int);
    let mut off: usize = container_offset + 8;
    while off <= n && n - off >= 8 && csize >= 8 && off - container_offset <= csize - 8
        invariant
            n == data@.len(),
            cend == container_offset as int + csize,
            container_offset + 8 <= n,
            off >= container_offset + 8,
            spec_scan_in_container(data@, container_offset as int, box_type as int)
                == spec_scan_children(data@, off as int, cend, box_type as int),
        decreases n + 8 - off,
    {
        let size = crate::bytes::read_be_u32(data, off) as usize;
        if size < 8 {
            return Err(Mp4Error::MalformedBox);
        }
        if crate::bytes::read_be_u32(data, off + 4) == box_type {
            return Ok(off);
        }
        if size > n - off {
            return Err(Mp4Error::MissingRequiredBox);
        }
        off = off + size;
    }
    Err(Mp4Error::MissingRequiredBox)
}

/// The size of the first sample declared by the stsz box at
/// `stsz_off`: the shared size when nonzero, the first table entry
/// otherwise.
pub open spec fn spec_first_sample_size(s: Seq<u8>, stsz_off: int) -> Result<int, Mp4Error> {
    if stsz_off + 20 > s.len() {
        Err(Mp4Error::TruncatedData)
    } else if be32(s, stsz_off + 12) != 0 {
        Ok(be32(s, stsz_off + 12))
    } else if stsz_off + 24 > s.len() {
        Err(Mp4Error::TruncatedData)
    } else {
        Ok(be32(s, stsz_off + 20))
    }
}

fn read_first_sample_size(data: &[u8], stsz_offset: usize) -> (r: Result<u32, Mp4Error>)
    ensures
        match r {
            Ok(sz) => spec_first_sample_size(data@, stsz_offset as int) == Ok::<int, Mp4Error>(
                sz as int,
            ),
            Err(e) => spec_first_sample_size(data@, stsz_offset as int) == Err::<int, Mp4Error>(
                e,
            ),
        },
{
    let n = data.len();
    if stsz_offset > n || n - stsz_offset < 20 {
        return Err(Mp4Error::TruncatedData);
    }
    let sample_size = crate::bytes::read_be_u32(data, stsz_offset + 12);
    if sample_size != 0 {
        return Ok(sample_size);
    }
    if n - stsz_offset < 24 {
        return Err(Mp4Error::TruncatedData);
    }
    Ok(crate::bytes::read_be_u32(data, stsz_offset + 20))
}

/// The first video sample of a flat MP4, in Annex-B framing: the
/// first `first sample size` bytes of the mdat payload, located
/// through moov/trak/mdia/minf/stbl/stsz, then reframed.
pub open spec fn spec_extract_thumbnail(s: Seq<u8>) -> Result<Seq<u8>, Mp4Error> {
    match spec_scan_box(s, 0, crate::boxes::MDAT as int) {
        Err(e) => Err(e),
        Ok(mdat_off) => {
            let start = mdat_off + 8;
            if start >= s.len() {
                Err(Mp4Error::TruncatedData)
            } else {
                match spec_scan_box(s, 0, crate::boxes::MOOV as int) {
                    Err(e) => Err(e),
                    Ok(moov_off) => match spec_scan_in_container(
                        s,
                        moov_off,
                        crate::boxes::TRAK as int,
                    ) {
                        Err(e) => Err(e),
                        Ok(trak_off) => match spec_scan_in_container(
                            s,
                            trak_off,
                            crate::boxes::MDIA as int,
                        ) {
                            Err(e) => Err(e),
                            Ok(mdia_off) => match spec_scan_in_container(
                                s,
                                mdia_off,
                                crate::boxes::MINF as int,
                            ) {
                                Err(e) => Err(e),
                                Ok(minf_off) => match spec_scan_in_container(
                                    s,
                                    minf_off,
                                    crate::boxes::STBL as int,
                                ) {
                                    Err(e) => Err(e),
                                    Ok(stbl_off) => match spec_scan_in_container(
                                        s,
                                        stbl_off,
                                        crate::boxes::STSZ as int,
                                    ) {
                                        Err(e) => Err(e),
                                        Ok(stsz_off) => match spec_first_sample_size(
                                            s,
                                            stsz_off,
                                        ) {
                                            Err(e) => Err(e),
                                            Ok(sz) => if start + sz > s.len() {
                                                Err(Mp4Error::TruncatedData)
                                            } else {
                                                Ok(spec_avcc_to_annexb(
                                                    s.subrange(start, start + sz),
                                                    0,
                                                ))
                                            },
                                        },
                                    },
                                },
                            },
                        },
                    },
                }
            }
        },
    }
}

/// Extracts the first keyframe of a flat MP4 as raw Annex-B H.264
/// data, exactly as [`spec_extract_thumbnail`] describes.
pub fn extract_thumbnail_from_mp4(mp4_data: &[u8]) -> (r: Result<Vec<u8>, Mp4Error>)
    ensures
        match r {
            Ok(out) => spec_extract_thumbnail(mp4_data@) == Ok::<Seq<u8>, Mp4Error>(out@),
            Err(e) => spec_extract_thumbnail(mp4_data@) == Err::<Seq<u8>, Mp4Error>(e),
        },
{
    let n = mp4_data.len();
    let mdat_offset = match scan_box(mp4_data, crate::boxes::MDAT) {
        Ok(o) => o,
        Err(e) => {
            return Err(e);
        },
    };
    let mdat_data_start = mdat_offset + 8;
    if mdat_data_start >= n {
        return Err(Mp4Error::TruncatedData);
    }

    let moov_offset = match scan_box(mp4_data, crate::boxes::MOOV) {
        Ok(o) => o,
        Err(e) => {
            return Err(e);
        },
    };
    let trak_offset = match scan_in_container(mp4_data, moov_offset, crate::boxes::TRAK) {
        Ok(o) => o,
        Err(e) => {
            return Err(e);
        },
    };
    let mdia_offset = match scan_in_container(mp4_data, trak_offset, crate::boxes::MDIA) {
        Ok(o) => o,
        Err(e) => {
            return Err(e);
        },
    };
    let minf_offset = match scan_in_container(mp4_data, mdia_offset, crate::boxes::MINF) {
        Ok(o) => o,
        Err(e) => {
            return Err(e);
        },
    };
    let stbl_offset = match scan_in_container(mp4_data, minf_offset, crate::boxes::STBL) {
        Ok(o) => o,
        Err(e) => {
            return Err(e);
        },
    };
    let stsz_offset = match scan_in_container(mp4_data, stbl_offset, crate::boxes::STSZ) {
        Ok(o) => o,
        Err(e) => {
            return Err(e);
        },
    };
    let first_sample_size = match read_first_sample_size(mp4_data, stsz_offset) {
        Ok(sz) => sz,
        Err(e) => {
            return Err(e);
        },
    } as usize;

    if first_sample_size > n - mdat_data_start {
        return Err(Mp4Error::TruncatedData);
    }
    let sample = vstd::slice::slice_subrange(
        mp4_data,
        mdat_data_start,
        mdat_data_start + first_sample_size,
    );
    match convert_avcc_to_annexb(sample) {
        Ok(v) => Ok(v),
        Err(e) => Err(e),
    }
}

} // verus!
