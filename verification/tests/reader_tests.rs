//! Tests for the bounds-checked cursor and a few remaining corners of
//! the streaming adjuster and the Annex-B conversion.

use ts2mp4::reader::Mp4Reader;
use ts2mp4::streaming::FragmentedMP4Processor;
use ts2mp4::thumbnail::convert_avcc_to_annexb;
use ts2mp4::Mp4Error;

fn bx(tag: &[u8; 4], payload: &[u8]) -> Vec<u8> {
    let mut v = Vec::new();
    v.extend_from_slice(&((8 + payload.len()) as u32).to_be_bytes());
    v.extend_from_slice(tag);
    v.extend_from_slice(payload);
    v
}

#[test]
fn reader_reads_and_seeks() {
    let data: Vec<u8> = (1..=12).collect();
    let mut r = Mp4Reader::new(&data);
    assert_eq!(r.position(), 0);
    assert_eq!(r.remaining(), 12);

    assert_eq!(r.read_u64().unwrap(), 0x0102030405060708);
    assert_eq!(r.position(), 8);
    assert_eq!(r.remaining(), 4);

    let bytes = r.read_bytes(3).unwrap();
    assert_eq!(bytes, &[9, 10, 11]);

    // Only one byte left: a 4-byte read fails and leaves the cursor.
    assert_eq!(r.read_u32().unwrap_err(), Mp4Error::TruncatedData);
    assert_eq!(r.position(), 11);

    r.seek(4);
    assert_eq!(r.read_u32().unwrap(), 0x05060708);

    // Seeking past the end makes every read fail.
    r.seek(100);
    assert_eq!(r.remaining(), 0);
    assert_eq!(r.read_u64().unwrap_err(), Mp4Error::TruncatedData);
}

#[test]
fn rebased_decode_times_stay_monotone() {
    // Three segments in arrival order with non-decreasing decode
    // times rebase to a non-decreasing sequence starting at zero.
    let seg = |v: u32| {
        let mut tfdt_payload = vec![0u8, 0, 0, 0];
        tfdt_payload.extend_from_slice(&v.to_be_bytes());
        let mut traf_payload = bx(b"tfhd", &[0, 0, 0, 0, 0, 0, 0, 1]);
        traf_payload.extend_from_slice(&bx(b"tfdt", &tfdt_payload));
        bx(b"moof", &bx(b"traf", &traf_payload))
    };
    let mut p = FragmentedMP4Processor::new();
    let mut rebased = Vec::new();
    for v in [1000u32, 1000, 2500, 9000] {
        let out = p.process_segment(&seg(v)).unwrap();
        // The rebased decode time sits at byte 12 of the tfdt box,
        // which starts 32 bytes into the segment.
        rebased.push(u32::from_be_bytes([out[44], out[45], out[46], out[47]]));
    }
    assert_eq!(rebased, vec![0, 0, 1500, 8000]);
    for w in rebased.windows(2) {
        assert!(w[0] <= w[1]);
    }
}

#[test]
fn annexb_conversion_handles_several_units() {
    let mut avcc = Vec::new();
    avcc.extend_from_slice(&2u32.to_be_bytes());
    avcc.extend_from_slice(&[0x67, 0x42]);
    avcc.extend_from_slice(&1u32.to_be_bytes());
    avcc.extend_from_slice(&[0x68]);
    avcc.extend_from_slice(&3u32.to_be_bytes());
    avcc.extend_from_slice(&[0x65, 0xaa, 0xbb]);

    let out = convert_avcc_to_annexb(&avcc).unwrap();
    assert_eq!(
        out,
        vec![
            0, 0, 0, 1, 0x67, 0x42, //
            0, 0, 0, 1, 0x68, //
            0, 0, 0, 1, 0x65, 0xaa, 0xbb,
        ]
    );
}

#[test]
fn big_endian_writers_roundtrip() {
    let mut buf = Vec::new();
    ts2mp4::bytes::push_be_u32(&mut buf, 0xdeadbeef);
    ts2mp4::bytes::push_be_u64(&mut buf, 0x0102030405060708);
    assert_eq!(ts2mp4::bytes::read_be_u32(&buf, 0), 0xdeadbeef);
    assert_eq!(ts2mp4::bytes::read_be_u64(&buf, 4), 0x0102030405060708);
}
