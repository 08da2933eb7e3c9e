//! Box-tree model, parser and writer.
//!
//! An ISO-BMFF file is a flat sequence of boxes; container boxes hold a
//! flat sequence of child boxes in their payload. A box starts with a
//! 4-byte big-endian size and a 4-byte type tag; size 1 means an 8-byte
//! extended size follows, size 0 means the box runs to the end of the
//! buffer. The spec functions here define exactly how a byte buffer
//! decodes into boxes and how a box is serialized back; every parser
//! and writer contract in the crate is stated over them.

use vstd::prelude::*;
use crate::bytes::{be32, be64, be32_bytes, be64_bytes, read_be_u32, read_be_u64, push_be_u32, push_bytes};
use crate::Mp4Error;

verus! {

// Box type tags as 32-bit big-endian values ("fourcc" codes).
pub const FTYP: u32 = 0x66747970;
pub const MOOV: u32 = 0x6d6f6f76;
pub const MDAT: u32 = 0x6d646174;
pub const MOOF: u32 = 0x6d6f6f66;
pub const TRAK: u32 = 0x7472616b;
pub const TRAF: u32 = 0x74726166;
pub const TFHD: u32 = 0x74666864;
pub const TFDT: u32 = 0x74666474;
pub const TRUN: u32 = 0x7472756e;
pub const MVHD: u32 = 0x6d766864;
pub const TKHD: u32 = 0x746b6864;
pub const MDHD: u32 = 0x6d646864;
pub const MDIA: u32 = 0x6d646961;
pub const MINF: u32 = 0x6d696e66;
pub const STBL: u32 = 0x7374626c;
pub const STSD: u32 = 0x73747364;
pub const STTS: u32 = 0x73747473;
pub const STSC: u32 = 0x73747363;
pub const STSZ: u32 = 0x7374737a;
pub const STCO: u32 = 0x7374636f;
pub const CO64: u32 = 0x636f3634;
pub const CTTS: u32 = 0x63747473;
pub const STSS: u32 = 0x73747373;
pub const HDLR: u32 = 0x68646c72;
pub const EDTS: u32 = 0x65647473;

/// Mathematical model of one parsed box.
pub struct SpecBox {
    /// Type tag as a 32-bit big-endian value.
    pub typ: int,
    /// Whole box size in bytes, header included.
    pub size: int,
    /// Offset of the box's first byte in the buffer it was parsed from.
    pub offset: int,
    /// Payload bytes (everything after the header).
    pub payload: Seq<u8>,
}

/// Mathematical model of an mdat box whose payload stays in the source
/// buffer and is never copied.
pub struct SpecMdat {
    pub offset: int,
    pub size: int,
    pub payload_offset: int,
    pub payload_size: int,
}

/// Mathematical model of one top-level box entry.
pub enum SpecBoxInfo {
    Small(SpecBox),
    Mdat(SpecMdat),
}

/// An MP4 box with its payload copied out of the source buffer.
#[derive(Debug, Clone)]
pub struct Mp4Box {
    pub box_type: [u8; 4],
    pub size: u64,
    pub offset: usize,
    pub data: Vec<u8>,
}

impl View for Mp4Box {
    type V = SpecBox;

    open spec fn view(&self) -> SpecBox {
        SpecBox {
            typ: be32(self.box_type@, 0),
            size: self.size as int,
            offset: self.offset as int,
            payload: self.data@,
        }
    }
}

/// An mdat box recorded by file position only; the payload can be
/// arbitrarily large and is never copied.
#[derive(Debug, Clone)]
pub struct MdatBox {
    pub offset: usize,
    pub size: u64,
    pub data_offset: usize,
    pub data_size: usize,
}

impl View for MdatBox {
    type V = SpecMdat;

    open spec fn view(&self) -> SpecMdat {
        SpecMdat {
            offset: self.offset as int,
            size: self.size as int,
            payload_offset: self.data_offset as int,
            payload_size: self.data_size as int,
        }
    }
}

/// One top-level box entry: an ordinary box with owned payload, or an
/// mdat span.
#[derive(Debug)]
pub enum BoxInfo {
    Small(Mp4Box),
    Mdat(MdatBox),
}

impl View for BoxInfo {
    type V = SpecBoxInfo;

    open spec fn view(&self) -> SpecBoxInfo {
        match self {
            BoxInfo::Small(b) => SpecBoxInfo::Small(b@),
            BoxInfo::Mdat(m) => SpecBoxInfo::Mdat(m@),
        }
    }
}

/// The views of a parsed box vector, in order.
pub open spec fn box_views(v: Seq<Mp4Box>) -> Seq<SpecBox> {
    v.map_values(|b: Mp4Box| b@)
}

/// The views of a top-level entry vector, in order.
pub open spec fn info_views(v: Seq<BoxInfo>) -> Seq<SpecBoxInfo> {
    v.map_values(|b: BoxInfo| b@)
}

/// Decodes the box header at offset `i` of `s`: `Ok((header_len,
/// box_size))`, or the parse error the header forces. Expects
/// `i + 8 <= s.len()`.
pub open spec fn spec_box_header(s: Seq<u8>, i: int) -> Result<(int, int), Mp4Error> {
    let size32 = be32(s, i);
    if size32 == 1 {
        if s.len() - i < 16 {
            Err(Mp4Error::TruncatedData)
        } else {
            let bs = be64(s, i + 8);
            if bs < 16 {
                Err(Mp4Error::MalformedBox)
            } else if bs > s.len() - i {
                Err(Mp4Error::TruncatedData)
            } else {
                Ok((16, bs))
            }
        }
    } else if size32 == 0 {
        Ok((8, s.len() - i))
    } else if size32 < 8 {
        Err(Mp4Error::MalformedBox)
    } else if size32 > s.len() - i {
        Err(Mp4Error::TruncatedData)
    } else {
        Ok((8, size32))
    }
}

/// Parses `s` from offset `i` to the end as a flat sequence of boxes.
/// The parsed boxes tile `s[i..]` exactly; a trailing fragment shorter
/// than a header is a parse error.
pub open spec fn spec_parse_boxes(s: Seq<u8>, i: int) -> Result<Seq<SpecBox>, Mp4Error>
    decreases s.len() - i,
{
    if i < 0 || i > s.len() {
        Err(Mp4Error::TruncatedData)
    } else if s.len() - i == 0 {
        Ok(Seq::empty())
    } else if s.len() - i < 8 {
        Err(Mp4Error::TruncatedData)
    } else {
        match spec_box_header(s, i) {
            Err(e) => Err(e),
            Ok((h, bs)) => match spec_parse_boxes(s, i + bs) {
                Err(e) => Err(e),
                Ok(rest) => Ok(
                    seq![SpecBox {
                        typ: be32(s, i + 4),
                        size: bs,
                        offset: i,
                        payload: s.subrange(i + h, i + bs),
                    }] + rest,
                ),
            },
        }
    }
}

/// Parses `s` from offset `i` to the end as top-level entries,
/// recording mdat boxes as spans instead of copying their payload.
pub open spec fn spec_parse_top(s: Seq<u8>, i: int) -> Result<Seq<SpecBoxInfo>, Mp4Error>
    decreases s.len() - i,
{
    if i < 0 || i > s.len() {
        Err(Mp4Error::TruncatedData)
    } else if s.len() - i == 0 {
        Ok(Seq::empty())
    } else if s.len() - i < 8 {
        Err(Mp4Error::TruncatedData)
    } else {
        match spec_box_header(s, i) {
            Err(e) => Err(e),
            Ok((h, bs)) => match spec_parse_top(s, i + bs) {
                Err(e) => Err(e),
                Ok(rest) => {
                    let entry = if be32(s, i + 4) == MDAT {
                        SpecBoxInfo::Mdat(SpecMdat {
                            offset: i,
                            size: bs,
                            payload_offset: i + h,
                            payload_size: bs - h,
                        })
                    } else {
                        SpecBoxInfo::Small(SpecBox {
                            typ: be32(s, i + 4),
                            size: bs,
                            offset: i,
                            payload: s.subrange(i + h, i + bs),
                        })
                    };
                    Ok(seq![entry] + rest)
                },
            },
        }
    }
}

/// The serialized bytes of one box: size-prefixed header (32-bit size,
/// or 64-bit extended size when the total would not fit) followed by
/// the payload.
pub open spec fn serialize_box(typ: int, payload: Seq<u8>) -> Seq<u8> {
    if 8 + payload.len() <= 0xffffffff {
        be32_bytes(8 + payload.len() as int) + be32_bytes(typ) + payload
    } else {
        be32_bytes(1) + be32_bytes(typ) + be64_bytes(16 + payload.len() as int) + payload
    }
}

/// The first box of the given type, if any.
pub open spec fn first_box(bs: Seq<SpecBox>, typ: int) -> Option<SpecBox>
    decreases bs.len(),
{
    if bs.len() == 0 {
        None
    } else if bs[0].typ == typ {
        Some(bs[0])
    } else {
        first_box(bs.drop_first(), typ)
    }
}

/// The first ordinary (non-mdat) box of the given type among top-level
/// entries, if any.
pub open spec fn first_small(bs: Seq<SpecBoxInfo>, typ: int) -> Option<SpecBox>
    decreases bs.len(),
{
    if bs.len() == 0 {
        None
    } else {
        match bs[0] {
            SpecBoxInfo::Small(b) => if b.typ == typ {
                Some(b)
            } else {
                first_small(bs.drop_first(), typ)
            },
            SpecBoxInfo::Mdat(_) => first_small(bs.drop_first(), typ),
        }
    }
}

/// The first mdat span among top-level entries, if any.
pub open spec fn first_mdat(bs: Seq<SpecBoxInfo>) -> Option<SpecMdat>
    decreases bs.len(),
{
    if bs.len() == 0 {
        None
    } else {
        match bs[0] {
            SpecBoxInfo::Small(_) => first_mdat(bs.drop_first()),
            SpecBoxInfo::Mdat(m) => Some(m),
        }
    }
}

/// The ordinary (non-mdat) boxes among top-level entries, in order.
pub open spec fn small_boxes(bs: Seq<SpecBoxInfo>) -> Seq<SpecBox>
    decreases bs.len(),
{
    if bs.len() == 0 {
        Seq::empty()
    } else {
        match bs[0] {
            SpecBoxInfo::Small(b) => seq![b] + small_boxes(bs.drop_first()),
            SpecBoxInfo::Mdat(_) => small_boxes(bs.drop_first()),
        }
    }
}

pub proof fn lemma_first_small_push(bs: Seq<SpecBoxInfo>, x: SpecBoxInfo, typ: int)
    ensures
        first_small(bs.push(x), typ) == (if first_small(bs, typ) is Some {
            first_small(bs, typ)
        } else {
            match x {
                SpecBoxInfo::Small(b) => if b.typ == typ { Some(b) } else { None::<SpecBox> },
                SpecBoxInfo::Mdat(_) => None::<SpecBox>,
            }
        }),
    decreases bs.len(),
{
    if bs.len() == 0 {
        assert(bs.push(x).drop_first() =~= Seq::empty());
        assert(bs.push(x)[0] == x);
    } else {
        assert(bs.push(x)[0] == bs[0]);
        assert(bs.push(x).drop_first() =~= bs.drop_first().push(x));
        lemma_first_small_push(bs.drop_first(), x, typ);
    }
}

pub proof fn lemma_first_mdat_push(bs: Seq<SpecBoxInfo>, x: SpecBoxInfo)
    ensures
        first_mdat(bs.push(x)) == (if first_mdat(bs) is Some {
            first_mdat(bs)
        } else {
            match x {
                SpecBoxInfo::Small(_) => None::<SpecMdat>,
                SpecBoxInfo::Mdat(m) => Some(m),
            }
        }),
    decreases bs.len(),
{
    if bs.len() == 0 {
        assert(bs.push(x).drop_first() =~= Seq::empty());
        assert(bs.push(x)[0] == x);
    } else {
        assert(bs.push(x)[0] == bs[0]);
        assert(bs.push(x).drop_first() =~= bs.drop_first().push(x));
        lemma_first_mdat_push(bs.drop_first(), x);
    }
}

pub proof fn lemma_small_boxes_push(bs: Seq<SpecBoxInfo>, x: SpecBoxInfo)
    ensures
        small_boxes(bs.push(x)) == (match x {
            SpecBoxInfo::Small(b) => small_boxes(bs).push(b),
            SpecBoxInfo::Mdat(_) => small_boxes(bs),
        }),
    decreases bs.len(),
{
    if bs.len() == 0 {
        assert(bs.push(x).drop_first() =~= Seq::<SpecBoxInfo>::empty());
        assert(bs.push(x)[0] == x);
        assert(small_boxes(Seq::<SpecBoxInfo>::empty()) =~= Seq::<SpecBox>::empty());
        match x {
            SpecBoxInfo::Small(b) => {
                assert(small_boxes(bs.push(x)) == seq![b] + small_boxes(
                    bs.push(x).drop_first(),
                ));
                assert(seq![b] + Seq::<SpecBox>::empty() =~= small_boxes(bs).push(b));
            },
            SpecBoxInfo::Mdat(_) => {},
        }
    } else {
        assert(bs.push(x)[0] == bs[0]);
        assert(bs.push(x).drop_first() =~= bs.drop_first().push(x));
        lemma_small_boxes_push(bs.drop_first(), x);
        match (bs[0], x) {
            (SpecBoxInfo::Small(b0), SpecBoxInfo::Small(b)) => {
                assert(small_boxes(bs.push(x)) =~= small_boxes(bs).push(b));
            },
            _ => {},
        }
    }
}

/// Composes already-parsed boxes with the parse of the rest of the
/// buffer.
pub open spec fn compose_boxes(acc: Seq<SpecBox>, r: Result<Seq<SpecBox>, Mp4Error>) -> Result<
    Seq<SpecBox>,
    Mp4Error,
> {
    match r {
        Ok(rest) => Ok(acc + rest),
        Err(e) => Err(e),
    }
}

/// Composes already-parsed top-level entries with the parse of the
/// rest of the buffer.
pub open spec fn compose_top(acc: Seq<SpecBoxInfo>, r: Result<Seq<SpecBoxInfo>, Mp4Error>) -> Result<
    Seq<SpecBoxInfo>,
    Mp4Error,
> {
    match r {
        Ok(rest) => Ok(acc + rest),
        Err(e) => Err(e),
    }
}

/// True when the box's tag equals the given fourcc code.
pub fn box_type_is(b: &Mp4Box, c: u32) -> (r: bool)
    ensures
        r == (b@.typ == c),
{
    let t0 = b.box_type[0] as u32;
    let t1 = b.box_type[1] as u32;
    let t2 = b.box_type[2] as u32;
    let t3 = b.box_type[3] as u32;
    t0 * 0x1000000 + t1 * 0x10000 + t2 * 0x100 + t3 == c
}

/// Reads the box header at `off`. On success returns
/// `(header_len, box_size)` exactly as [`spec_box_header`] describes.
fn read_box_header(data: &[u8], off: usize) -> (r: Result<(usize, u64), Mp4Error>)
    requires
        off + 8 <= data@.len(),
    ensures
        match r {
            Ok((h, bs)) => {
                &&& spec_box_header(data@, off as int) == Ok::<(int, int), Mp4Error>((h as int, bs as int))
                &&& (h == 8 || h == 16)
                &&& 8 <= bs
                &&& off + bs <= data@.len()
                &&& h <= bs
            },
            Err(e) => spec_box_header(data@, off as int) == Err::<(int, int), Mp4Error>(e),
        },
{
    let n = data.len();
    let size32 = read_be_u32(data, off);
    if size32 == 1 {
        if n - off < 16 {
            return Err(Mp4Error::TruncatedData);
        }
        let bs = read_be_u64(data, off + 8);
        if bs < 16 {
            Err(Mp4Error::MalformedBox)
        } else if bs > (n - off) as u64 {
            Err(Mp4Error::TruncatedData)
        } else {
            Ok((16, bs))
        }
    } else if size32 == 0 {
        Ok((8, (n - off) as u64))
    } else if size32 < 8 {
        Err(Mp4Error::MalformedBox)
    } else if size32 as u64 > (n - off) as u64 {
        Err(Mp4Error::TruncatedData)
    } else {
        Ok((8, size32 as u64))
    }
}

/// Parses the payload of a container box (moov, trak, mdia, minf,
/// stbl, moof, traf) into its ordered child boxes.
///
/// Returns exactly the boxes of [`spec_parse_boxes`], or the error it
/// forces: the children must tile the payload completely.
pub fn parse_container_box(data: &[u8]) -> (r: Result<Vec<Mp4Box>, Mp4Error>)
    ensures
        match r {
            Ok(boxes) => spec_parse_boxes(data@, 0) == Ok::<Seq<SpecBox>, Mp4Error>(
                box_views(boxes@),
            ),
            Err(e) => spec_parse_boxes(data@, 0) == Err::<Seq<SpecBox>, Mp4Error>(e),
        },
{
    let n = data.len();
    let mut boxes: Vec<Mp4Box> = Vec::new();
    let mut off: usize = 0;

    while n - off >= 8
        invariant
            n == data@.len(),
            off <= n,
            spec_parse_boxes(data@, 0) == compose_boxes(
                box_views(boxes@),
                spec_parse_boxes(data@, off as int),
            ),
        decreases n - off,
    {
        let ghost prev_views = box_views(boxes@);
        let ghost prev_off = off as int;
        let (h, bs) = match read_box_header(data, off) {
            Ok(p) => p,
            Err(e) => {
                return Err(e);
            },
        };
        let bs_us = bs as usize;
        let box_type: [u8; 4] = [data[off + 4], data[off + 5], data[off + 6], data[off + 7]];
        let payload = vstd::slice::slice_subrange(data, off + h, off + bs_us);
        let b = Mp4Box {
            box_type,
            size: bs,
            offset: off,
            data: vstd::slice::slice_to_vec(payload),
        };
        proof {
            assert(box_type@ =~= data@.subrange(prev_off + 4, prev_off + 8));
            assert(box_type@.subrange(0, 4) =~= box_type@);
            crate::bytes::lemma_be32_depends_on_window(box_type@, 0, data@, prev_off + 4);
            assert(b@ == SpecBox {
                typ: be32(data@, prev_off + 4),
                size: bs as int,
                offset: prev_off,
                payload: data@.subrange(prev_off + h, prev_off + bs),
            });
        }
        boxes.push(b);
        off = off + bs_us;
        proof {
            assert(box_views(boxes@) =~= prev_views.push(boxes@[boxes@.len() - 1]@));
            match spec_parse_boxes(data@, off as int) {
                Ok(rest) => {
                    assert(spec_parse_boxes(data@, prev_off) == Ok::<Seq<SpecBox>, Mp4Error>(
                        seq![boxes@[boxes@.len() - 1]@] + rest,
                    ));
                    assert(prev_views + (seq![boxes@[boxes@.len() - 1]@] + rest) =~= box_views(
                        boxes@,
                    ) + rest);
                },
                Err(_) => {},
            }
        }
    }

    if off == n {
        proof {
            assert(spec_parse_boxes(data@, n as int) == Ok::<Seq<SpecBox>, Mp4Error>(Seq::empty()));
            assert(box_views(boxes@) + Seq::<SpecBox>::empty() =~= box_views(boxes@));
        }
        Ok(boxes)
    } else {
        Err(Mp4Error::TruncatedData)
    }
}

/// Finds the first box of the given type at this nesting level.
pub fn find_box<'a>(boxes: &'a [Mp4Box], box_type: &[u8; 4]) -> (r: Option<&'a Mp4Box>)
    ensures
        match r {
            Some(b) => {
                &&& first_box(box_views(boxes@), be32(box_type@, 0)) == Some(b@)
            },
            None => first_box(box_views(boxes@), be32(box_type@, 0)) is None,
        },
{
    let ghost typ = be32(box_type@, 0);
    let mut i: usize = 0;
    proof {
        assert(box_views(boxes@).skip(0) =~= box_views(boxes@));
    }
    while i < boxes.len()
        invariant
            i <= boxes@.len(),
            typ == be32(box_type@, 0),
            first_box(box_views(boxes@), typ) == first_box(
                box_views(boxes@).skip(i as int),
                typ,
            ),
            forall|j: int| 0 <= j < i ==> #[trigger] box_views(boxes@)[j].typ != typ,
        decreases boxes@.len() - i,
    {
        let b = &boxes[i];
        let same = b.box_type[0] == box_type[0] && b.box_type[1] == box_type[1]
            && b.box_type[2] == box_type[2] && b.box_type[3] == box_type[3];
        proof {
            if same {
                assert(b.box_type@ =~= box_type@);
            }
            assert(box_views(boxes@).skip(i as int)[0] == b@);
        }
        if same {
            proof {
                assert(first_box(box_views(boxes@).skip(i as int), typ) == Some(b@));
            }
            return Some(b);
        }
        proof {
            if b@.typ == typ {
                assert(be32(b.box_type@, 0) == be32(box_type@, 0));
                assert(b.box_type@[0] == box_type@[0] && b.box_type@[1] == box_type@[1]
                    && b.box_type@[2] == box_type@[2] && b.box_type@[3] == box_type@[3]) by {
                    crate::bytes::lemma_be32_bytes_unique(b.box_type@, box_type@);
                };
                assert(false);
            }
            assert(box_views(boxes@).skip(i as int).drop_first() =~= box_views(boxes@).skip(
                i as int + 1,
            ));
        }
        i = i + 1;
    }
    proof {
        assert(box_views(boxes@).skip(i as int) =~= Seq::<SpecBox>::empty());
    }
    None
}

/// The view of an optional box.
pub open spec fn opt_box(o: Option<Mp4Box>) -> Option<SpecBox> {
    match o {
        Some(b) => Some(b@),
        None => None,
    }
}

/// The view of an optional mdat span.
pub open spec fn opt_mdat(o: Option<MdatBox>) -> Option<SpecMdat> {
    match o {
        Some(m) => Some(m@),
        None => None,
    }
}

/// A parsed MP4 file: the first ftyp, moov and mdat (kept for callers
/// that only need those), and the full ordered top-level entry list.
#[derive(Debug)]
pub struct Mp4File {
    pub ftyp: Option<Mp4Box>,
    pub moov: Option<Mp4Box>,
    pub mdat: Option<MdatBox>,
    pub boxes: Vec<Mp4Box>,
    pub all_boxes_in_order: Vec<BoxInfo>,
}

/// A copy of a box with the same model.
pub fn copy_box(b: &Mp4Box) -> (r: Mp4Box)
    ensures
        r@ == b@,
{
    Mp4Box {
        box_type: b.box_type,
        size: b.size,
        offset: b.offset,
        data: vstd::slice::slice_to_vec(b.data.as_slice()),
    }
}

/// Parses a whole buffer into its ordered top-level boxes.
///
/// The entries are exactly those of [`spec_parse_top`]: they tile the
/// buffer completely, mdat payloads are recorded as spans rather than
/// copied, and `ftyp` / `moov` / `mdat` are the first entries of their
/// kind. Any shortfall is a parse error.
pub fn parse_mp4(data: &[u8]) -> (r: Result<Mp4File, Mp4Error>)
    ensures
        match r {
            Ok(f) => {
                &&& spec_parse_top(data@, 0) == Ok::<Seq<SpecBoxInfo>, Mp4Error>(
                    info_views(f.all_boxes_in_order@),
                )
                &&& box_views(f.boxes@) == small_boxes(info_views(f.all_boxes_in_order@))
                &&& opt_box(f.ftyp) == first_small(info_views(f.all_boxes_in_order@), FTYP as int)
                &&& opt_box(f.moov) == first_small(info_views(f.all_boxes_in_order@), MOOV as int)
                &&& opt_mdat(f.mdat) == first_mdat(info_views(f.all_boxes_in_order@))
            },
            Err(e) => spec_parse_top(data@, 0) == Err::<Seq<SpecBoxInfo>, Mp4Error>(e),
        },
{
    let n = data.len();
    let mut boxes: Vec<Mp4Box> = Vec::new();
    let mut infos: Vec<BoxInfo> = Vec::new();
    let mut ftyp: Option<Mp4Box> = None;
    let mut moov: Option<Mp4Box> = None;
    let mut mdat: Option<MdatBox> = None;
    let mut off: usize = 0;

    while n - off >= 8
        invariant
            n == data@.len(),
            off <= n,
            spec_parse_top(data@, 0) == compose_top(
                info_views(infos@),
                spec_parse_top(data@, off as int),
            ),
            box_views(boxes@) == small_boxes(info_views(infos@)),
            opt_box(ftyp) == first_small(info_views(infos@), FTYP as int),
            opt_box(moov) == first_small(info_views(infos@), MOOV as int),
            opt_mdat(mdat) == first_mdat(info_views(infos@)),
        decreases n - off,
    {
        let ghost prev_infos = info_views(infos@);
        let ghost prev_off = off as int;
        let (h, bs) = match read_box_header(data, off) {
            Ok(p) => p,
            Err(e) => {
                return Err(e);
            },
        };
        let bs_us = bs as usize;
        let t32 = read_be_u32(data, off + 4);

        if t32 == MDAT {
            let m = MdatBox {
                offset: off,
                size: bs,
                data_offset: off + h,
                data_size: bs_us - h,
            };
            let ghost gm = m@;
            if mdat.is_none() {
                mdat = Some(MdatBox {
                    offset: off,
                    size: bs,
                    data_offset: off + h,
                    data_size: bs_us - h,
                });
            }
            infos.push(BoxInfo::Mdat(m));
            off = off + bs_us;
            proof {
                let x = SpecBoxInfo::Mdat(gm);
                assert(info_views(infos@) =~= prev_infos.push(x));
                lemma_small_boxes_push(prev_infos, x);
                lemma_first_small_push(prev_infos, x, FTYP as int);
                lemma_first_small_push(prev_infos, x, MOOV as int);
                lemma_first_mdat_push(prev_infos, x);
                match spec_parse_top(data@, off as int) {
                    Ok(rest) => {
                        assert(spec_parse_top(data@, prev_off) == Ok::<Seq<SpecBoxInfo>, Mp4Error>(
                            seq![x] + rest,
                        ));
                        assert(prev_infos + (seq![x] + rest) =~= info_views(infos@) + rest);
                    },
                    Err(_) => {},
                }
            }
        } else {
            let box_type: [u8; 4] = [data[off + 4], data[off + 5], data[off + 6], data[off + 7]];
            let payload = vstd::slice::slice_subrange(data, off + h, off + bs_us);
            let b = Mp4Box {
                box_type,
                size: bs,
                offset: off,
                data: vstd::slice::slice_to_vec(payload),
            };
            proof {
                assert(box_type@ =~= data@.subrange(prev_off + 4, prev_off + 8));
                assert(box_type@.subrange(0, 4) =~= box_type@);
                crate::bytes::lemma_be32_depends_on_window(box_type@, 0, data@, prev_off + 4);
            }
            let ghost gb = b@;
            if ftyp.is_none() && t32 == FTYP {
                ftyp = Some(copy_box(&b));
            }
            if moov.is_none() && t32 == MOOV {
                moov = Some(copy_box(&b));
            }
            boxes.push(copy_box(&b));
            infos.push(BoxInfo::Small(b));
            off = off + bs_us;
            proof {
                let x = SpecBoxInfo::Small(gb);
                assert(info_views(infos@) =~= prev_infos.push(x));
                assert(box_views(boxes@) =~= small_boxes(prev_infos).push(gb));
                lemma_small_boxes_push(prev_infos, x);
                lemma_first_small_push(prev_infos, x, FTYP as int);
                lemma_first_small_push(prev_infos, x, MOOV as int);
                lemma_first_mdat_push(prev_infos, x);
                match spec_parse_top(data@, off as int) {
                    Ok(rest) => {
                        assert(spec_parse_top(data@, prev_off) == Ok::<Seq<SpecBoxInfo>, Mp4Error>(
                            seq![x] + rest,
                        ));
                        assert(prev_infos + (seq![x] + rest) =~= info_views(infos@) + rest);
                    },
                    Err(_) => {},
                }
            }
        }
    }

    if off == n {
        proof {
            assert(spec_parse_top(data@, n as int) == Ok::<Seq<SpecBoxInfo>, Mp4Error>(
                Seq::empty(),
            ));
            assert(info_views(infos@) + Seq::<SpecBoxInfo>::empty() =~= info_views(infos@));
        }
        Ok(Mp4File { ftyp, moov, mdat, boxes, all_boxes_in_order: infos })
    } else {
        Err(Mp4Error::TruncatedData)
    }
}

/// Descends a chain of box types (for example mdia, then mdhd) and
/// returns the first match at the end of the chain; an absent link
/// gives `None` rather than an error.
pub open spec fn spec_find_path(s: Seq<u8>, path: Seq<int>) -> Result<Option<SpecBox>, Mp4Error>
    decreases path.len(),
{
    if path.len() == 0 {
        Ok(None)
    } else {
        match spec_parse_boxes(s, 0) {
            Err(e) => Err(e),
            Ok(bs) => match first_box(bs, path[0]) {
                None => Ok(None),
                Some(b) => if path.len() == 1 {
                    Ok(Some(b))
                } else {
                    spec_find_path(b.payload, path.drop_first())
                },
            },
        }
    }
}

/// The fourcc codes of a path of type tags.
pub open spec fn path_views(path: Seq<&[u8; 4]>) -> Seq<int> {
    path.map_values(|p: &[u8; 4]| be32(p@, 0))
}

/// Follows a chain of box types from the payload of a container box,
/// exactly as [`spec_find_path`] describes.
pub fn find_box_path(data: &[u8], path: &[&[u8; 4]]) -> (r: Result<Option<Mp4Box>, Mp4Error>)
    ensures
        match r {
            Ok(Some(b)) => spec_find_path(data@, path_views(path@)) == Ok::<
                Option<SpecBox>,
                Mp4Error,
            >(Some(b@)),
            Ok(None) => spec_find_path(data@, path_views(path@)) == Ok::<
                Option<SpecBox>,
                Mp4Error,
            >(None),
            Err(e) => spec_find_path(data@, path_views(path@)) == Err::<
                Option<SpecBox>,
                Mp4Error,
            >(e),
        },
    decreases path@.len(),
{
    if path.len() == 0 {
        return Ok(None);
    }

    let boxes = match parse_container_box(data) {
        Ok(bs) => bs,
        Err(e) => {
            return Err(e);
        },
    };

    let first = find_box(boxes.as_slice(), path[0]);
    proof {
        assert(path_views(path@)[0] == be32(path@[0]@, 0));
    }
    match first {
        None => Ok(None),
        Some(b) => {
            if path.len() == 1 {
                Ok(Some(copy_box(b)))
            } else {
                let sub = vstd::slice::slice_subrange(path, 1, path.len());
                let r = find_box_path(b.data.as_slice(), sub);
                proof {
                    assert(path_views(sub@) =~= path_views(path@).drop_first());
                }
                r
            }
        },
    }
}

/// Structural facts that hold of every successfully parsed top-level
/// entry list: entries sit inside the buffer in order, and mdat spans
/// lie fully within it.
pub open spec fn wf_top_entry(s: Seq<u8>, e: SpecBoxInfo) -> bool {
    match e {
        SpecBoxInfo::Small(b) => {
            &&& 0 <= b.offset
            &&& b.offset + b.size <= s.len()
            &&& 8 <= b.size
            &&& b.payload.len() == b.size - 8 || b.payload.len() == b.size - 16
            &&& b.payload.len() <= b.size - 8
        },
        SpecBoxInfo::Mdat(m) => {
            &&& 0 <= m.offset
            &&& m.offset + m.size <= s.len()
            &&& 8 <= m.size
            &&& m.payload_offset == m.offset + m.size - m.payload_size
            &&& 0 <= m.payload_size <= m.size - 8
        },
    }
}

pub proof fn lemma_parse_top_wf(s: Seq<u8>, i: int)
    ensures
        spec_parse_top(s, i) matches Ok(bs) ==> forall|k: int|
            0 <= k < bs.len() ==> #[trigger] wf_top_entry(s, bs[k]),
    decreases s.len() - i,
{
    if i < 0 || i > s.len() || s.len() - i == 0 || s.len() - i < 8 {
    } else {
        match spec_box_header(s, i) {
            Err(_) => {},
            Ok((h, bs_sz)) => {
                lemma_parse_top_wf(s, i + bs_sz);
                match spec_parse_top(s, i + bs_sz) {
                    Err(_) => {},
                    Ok(rest) => {
                        match spec_parse_top(s, i) {
                            Ok(bs) => {
                                assert(bs[0] == (seq![bs[0]] + rest)[0]);
                                assert(wf_top_entry(s, bs[0]));
                                assert forall|k: int| 0 <= k < bs.len() implies #[trigger]
                                    wf_top_entry(s, bs[k]) by {
                                    if k > 0 {
                                        assert(bs[k] == rest[k - 1]);
                                    }
                                };
                            },
                            Err(_) => {},
                        }
                    },
                }
            },
        }
    }
}

/// One piece of a rewritten container payload: a rebuilt box to be
/// serialized with a fresh header, or a byte span copied verbatim
/// from the source so that untouched boxes keep their exact original
/// bytes, extended or to-end size headers included.
pub enum RawBox {
    Boxed { typ: int, payload: Seq<u8> },
    Span { bytes: Seq<u8> },
}

/// The emitted bytes of one piece.
pub open spec fn raw_box_bytes(b: RawBox) -> Seq<u8> {
    match b {
        RawBox::Boxed { typ, payload } => serialize_box(typ, payload),
        RawBox::Span { bytes } => bytes,
    }
}

/// Whether a piece is a rebuilt box with the given type tag.
pub open spec fn is_boxed(b: RawBox, t: int) -> bool {
    b matches RawBox::Boxed { typ, payload } && typ == t
}

/// The payload of a rebuilt box (the bytes themselves for a span).
pub open spec fn boxed_payload(b: RawBox) -> Seq<u8> {
    match b {
        RawBox::Boxed { typ, payload } => payload,
        RawBox::Span { bytes } => bytes,
    }
}

/// The concatenated bytes of a list of pieces.
pub open spec fn serialize_raws(bs: Seq<RawBox>) -> Seq<u8>
    decreases bs.len(),
{
    if bs.len() == 0 {
        Seq::empty()
    } else {
        raw_box_bytes(bs[0]) + serialize_raws(bs.drop_first())
    }
}

pub proof fn lemma_serialize_raws_push(bs: Seq<RawBox>, x: RawBox)
    ensures
        serialize_raws(bs.push(x)) == serialize_raws(bs) + raw_box_bytes(x),
    decreases bs.len(),
{
    if bs.len() == 0 {
        assert(bs.push(x).drop_first() =~= Seq::<RawBox>::empty());
        assert(bs.push(x)[0] == x);
        assert(serialize_raws(Seq::<RawBox>::empty()) =~= Seq::<u8>::empty());
        assert(raw_box_bytes(x) + Seq::<u8>::empty() =~= raw_box_bytes(x));
        assert(Seq::<u8>::empty() + raw_box_bytes(x) =~= raw_box_bytes(x));
    } else {
        assert(bs.push(x)[0] == bs[0]);
        assert(bs.push(x).drop_first() =~= bs.drop_first().push(x));
        lemma_serialize_raws_push(bs.drop_first(), x);
        assert(raw_box_bytes(bs[0]) + (serialize_raws(bs.drop_first()) + raw_box_bytes(x))
            =~= (raw_box_bytes(bs[0]) + serialize_raws(bs.drop_first())) + raw_box_bytes(x));
    }
}

/// Structural facts that hold of every successfully parsed child box:
/// it sits inside the buffer it was parsed from, and its raw span
/// starts with its header.
pub open spec fn wf_child(s: Seq<u8>, b: SpecBox) -> bool {
    &&& 0 <= b.offset
    &&& b.offset + b.size <= s.len()
    &&& 8 <= b.size
    &&& b.typ == be32(s, b.offset + 4)
}

pub proof fn lemma_parse_boxes_wf(s: Seq<u8>, i: int)
    ensures
        spec_parse_boxes(s, i) matches Ok(bs) ==> forall|k: int|
            0 <= k < bs.len() ==> #[trigger] wf_child(s, bs[k]),
    decreases s.len() - i,
{
    if i < 0 || i > s.len() || s.len() - i == 0 || s.len() - i < 8 {
    } else {
        match spec_box_header(s, i) {
            Err(_) => {},
            Ok((h, bs_sz)) => {
                lemma_parse_boxes_wf(s, i + bs_sz);
                match spec_parse_boxes(s, i + bs_sz) {
                    Err(_) => {},
                    Ok(rest) => {
                        match spec_parse_boxes(s, i) {
                            Ok(bs) => {
                                assert(bs[0] == (seq![bs[0]] + rest)[0]);
                                assert(wf_child(s, bs[0]));
                                assert forall|k: int| 0 <= k < bs.len() implies #[trigger]
                                    wf_child(s, bs[k]) by {
                                    if k > 0 {
                                        assert(bs[k] == rest[k - 1]);
                                    }
                                };
                            },
                            Err(_) => {},
                        }
                    },
                }
            },
        }
    }
}

/// Folds a per-child rewrite over a container's children, in order;
/// the first error wins.
pub open spec fn fold_children(
    cs: Seq<SpecBox>,
    f: spec_fn(SpecBox) -> Result<Seq<RawBox>, Mp4Error>,
) -> Result<Seq<RawBox>, Mp4Error>
    decreases cs.len(),
{
    if cs.len() == 0 {
        Ok(Seq::empty())
    } else {
        match f(cs[0]) {
            Err(e) => Err(e),
            Ok(h) => match fold_children(cs.drop_first(), f) {
                Err(e) => Err(e),
                Ok(rest) => Ok(h + rest),
            },
        }
    }
}

/// Writes one size-prefixed box to `output`, choosing the 32-bit or
/// 64-bit size encoding automatically.
pub fn write_box(output: &mut Vec<u8>, box_type: &[u8; 4], data: &[u8])
    ensures
        final(output)@ == old(output)@ + serialize_box(be32(box_type@, 0), data@),
{
    if data.len() <= 0xffffffff - 8 {
        let total = 8 + data.len();
        push_be_u32(output, total as u32);
        push_bytes(output, box_type);
        push_bytes(output, data);
        proof {
            assert(be32_bytes(be32(box_type@, 0)) =~= box_type@) by {
                crate::bytes::lemma_be32_bytes_of_be32(box_type@);
            };
            assert(final(output)@ =~= old(output)@ + serialize_box(be32(box_type@, 0), data@));
        }
    } else {
        let total: u128 = 16u128 + data.len() as u128;
        push_be_u32(output, 1);
        push_bytes(output, box_type);
        crate::bytes::push_be_u64_wide(output, total);
        push_bytes(output, data);
        proof {
            assert(be32_bytes(be32(box_type@, 0)) =~= box_type@) by {
                crate::bytes::lemma_be32_bytes_of_be32(box_type@);
            };
            assert(final(output)@ =~= old(output)@ + serialize_box(be32(box_type@, 0), data@));
        }
    }
}

} // verus!
