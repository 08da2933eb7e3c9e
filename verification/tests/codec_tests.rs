//! Tests for tfhd defaults, version-1 header paths, track info
//! extraction and saturating rebase behaviour.

use ts2mp4::boxes::{find_box_path, parse_mp4};
use ts2mp4::codecs::{extract_track_info, parse_stsz, parse_stts, MediaType};
use ts2mp4::defrag::defragment_mp4;
use ts2mp4::streaming::FragmentedMP4Processor;

fn bx(tag: &[u8; 4], payload: &[u8]) -> Vec<u8> {
    let mut v = Vec::new();
    v.extend_from_slice(&((8 + payload.len()) as u32).to_be_bytes());
    v.extend_from_slice(tag);
    v.extend_from_slice(payload);
    v
}

fn be32(v: u32) -> [u8; 4] {
    v.to_be_bytes()
}

fn tkhd_v0(track_id: u32) -> Vec<u8> {
    let mut p = vec![0u8, 0, 0, 7];
    p.extend_from_slice(&be32(0));
    p.extend_from_slice(&be32(0));
    p.extend_from_slice(&be32(track_id));
    p.extend_from_slice(&[0u8; 68]);
    bx(b"tkhd", &p)
}

fn mdhd_v0(timescale: u32, duration: u32) -> Vec<u8> {
    let mut p = vec![0u8, 0, 0, 0];
    p.extend_from_slice(&be32(0));
    p.extend_from_slice(&be32(0));
    p.extend_from_slice(&be32(timescale));
    p.extend_from_slice(&be32(duration));
    p.extend_from_slice(&be32(0));
    bx(b"mdhd", &p)
}

fn hdlr_box(handler: &[u8; 4]) -> Vec<u8> {
    let mut p = vec![0u8, 0, 0, 0];
    p.extend_from_slice(&be32(0));
    p.extend_from_slice(handler);
    p.extend_from_slice(&[0u8; 12]);
    bx(b"hdlr", &p)
}

fn trak(track_id: u32, timescale: u32, handler: &[u8; 4]) -> Vec<u8> {
    let stsd = bx(b"stsd", &[0, 0, 0, 0, 0, 0, 0, 0]);
    let stbl = bx(b"stbl", &stsd);
    let minf = bx(b"minf", &stbl);
    let mut mdia_payload = mdhd_v0(timescale, 77);
    mdia_payload.extend_from_slice(&hdlr_box(handler));
    mdia_payload.extend_from_slice(&minf);
    let mdia = bx(b"mdia", &mdia_payload);
    let mut p = tkhd_v0(track_id);
    p.extend_from_slice(&mdia);
    bx(b"trak", &p)
}

#[test]
fn extract_track_info_reads_headers() {
    let t = trak(9, 90000, b"vide");
    let info = extract_track_info(&t[8..]).unwrap();
    assert_eq!(info.track_id, 9);
    assert_eq!(info.timescale, 90000);
    assert_eq!(info.duration, 77);
    assert_eq!(info.media_type, MediaType::Video);
    assert!(info.samples.is_empty());
}

#[test]
fn defragment_applies_tfhd_defaults() {
    // tfhd carries default duration 25 and default size 2; the trun
    // declares only a data offset and the sample count.
    let mut moov_payload = {
        let mut p = vec![0u8, 0, 0, 0]; // mvhd v0
        p.extend_from_slice(&be32(0));
        p.extend_from_slice(&be32(0));
        p.extend_from_slice(&be32(1000));
        p.extend_from_slice(&be32(0));
        p.extend_from_slice(&[0u8; 80]);
        bx(b"mvhd", &p)
    };
    moov_payload.extend_from_slice(&trak(1, 1000, b"vide"));
    let moov = bx(b"moov", &moov_payload);

    let mut tfhd_payload = vec![0u8, 0, 0, 0x18]; // default duration | default size
    tfhd_payload.extend_from_slice(&be32(1)); // track id
    tfhd_payload.extend_from_slice(&be32(25)); // default duration
    tfhd_payload.extend_from_slice(&be32(2)); // default size
    let tfhd = bx(b"tfhd", &tfhd_payload);

    let mut tfdt_payload = vec![0u8, 0, 0, 0];
    tfdt_payload.extend_from_slice(&be32(0));
    let tfdt = bx(b"tfdt", &tfdt_payload);

    // trun payload: flags + count + data offset; the traf also holds
    // the tfhd and tfdt built above.
    let moof_size = 8 + 8 + tfhd.len() + tfdt.len() + 8 + 12;
    let mut trun_payload = vec![0u8, 0, 0, 1]; // data_offset only
    trun_payload.extend_from_slice(&be32(3)); // three samples
    trun_payload.extend_from_slice(&((moof_size + 8) as i32).to_be_bytes());
    let trun = bx(b"trun", &trun_payload);

    let mut traf_payload = tfhd;
    traf_payload.extend_from_slice(&tfdt);
    traf_payload.extend_from_slice(&trun);
    let traf = bx(b"traf", &traf_payload);
    let moof = bx(b"moof", &traf);
    assert_eq!(moof.len(), moof_size);

    let mut f = moov;
    f.extend_from_slice(&moof);
    f.extend_from_slice(&bx(b"mdat", &[9u8; 6]));

    let out = defragment_mp4(&f).unwrap();
    let parsed = parse_mp4(&out).unwrap();
    let moov_out = parsed.moov.unwrap();

    let stts = find_box_path(&moov_out.data, &[b"trak", b"mdia", b"minf", b"stbl", b"stts"])
        .unwrap()
        .unwrap();
    let runs = parse_stts(&stts.data).unwrap();
    assert_eq!(runs.len(), 1);
    assert_eq!((runs[0].sample_count, runs[0].sample_delta), (3, 25));

    let stsz = find_box_path(&moov_out.data, &[b"trak", b"mdia", b"minf", b"stbl", b"stsz"])
        .unwrap()
        .unwrap();
    assert_eq!(parse_stsz(&stsz.data).unwrap(), vec![2, 2, 2]);
}

#[test]
fn defragment_downgrades_version_one_mvhd() {
    // A version-1 mvhd (64-bit fields) comes out as a 108-byte
    // version-0 mvhd with the timescale carried over.
    let mut mvhd_payload = vec![1u8, 0, 0, 0];
    mvhd_payload.extend_from_slice(&55u64.to_be_bytes()); // creation
    mvhd_payload.extend_from_slice(&66u64.to_be_bytes()); // modification
    mvhd_payload.extend_from_slice(&be32(600)); // timescale
    mvhd_payload.extend_from_slice(&777u64.to_be_bytes()); // duration
    mvhd_payload.extend_from_slice(&[0u8; 80]);
    let mut moov_payload = bx(b"mvhd", &mvhd_payload);
    moov_payload.extend_from_slice(&trak(1, 600, b"vide"));
    let moov = bx(b"moov", &moov_payload);

    let mut tfdt_payload = vec![0u8, 0, 0, 0];
    tfdt_payload.extend_from_slice(&be32(0));
    let mut traf_payload = bx(b"tfhd", &[0, 0, 0, 0, 0, 0, 0, 1]);
    traf_payload.extend_from_slice(&bx(b"tfdt", &tfdt_payload));
    // trun payload: flags + count + data offset + one (duration, size)
    // pair; the traf already holds tfhd and tfdt.
    let moof_size = 8 + 8 + traf_payload.len() + 8 + 20;
    let mut trun_payload = vec![0u8, 0, 3, 1];
    trun_payload.extend_from_slice(&be32(1));
    trun_payload.extend_from_slice(&((moof_size + 8) as i32).to_be_bytes());
    trun_payload.extend_from_slice(&be32(30)); // duration
    trun_payload.extend_from_slice(&be32(4)); // size
    traf_payload.extend_from_slice(&bx(b"trun", &trun_payload));
    let moof = bx(b"moof", &bx(b"traf", &traf_payload));
    assert_eq!(moof.len(), moof_size);

    let mut f = moov;
    f.extend_from_slice(&moof);
    f.extend_from_slice(&bx(b"mdat", &[1, 2, 3, 4]));

    let out = defragment_mp4(&f).unwrap();
    let parsed = parse_mp4(&out).unwrap();
    let moov_out = parsed.moov.unwrap();
    let mvhd_out = find_box_path(&moov_out.data, &[b"mvhd"]).unwrap().unwrap();
    assert_eq!(mvhd_out.data.len(), 108);
    assert_eq!(mvhd_out.data[0], 0); // version 0
    assert_eq!(&mvhd_out.data[12..16], &be32(600)); // timescale kept
    assert_eq!(&mvhd_out.data[4..12], &[0u8; 8]); // times zeroed
}

#[test]
fn processor_handles_version_one_tfdt() {
    let seg = |v: u64| {
        let mut tfdt_payload = vec![1u8, 0, 0, 0];
        tfdt_payload.extend_from_slice(&v.to_be_bytes());
        let mut traf_payload = bx(b"tfhd", &[0, 0, 0, 0, 0, 0, 0, 1]);
        traf_payload.extend_from_slice(&bx(b"tfdt", &tfdt_payload));
        bx(b"moof", &bx(b"traf", &traf_payload))
    };
    let mut p = FragmentedMP4Processor::new();
    let out1 = p.process_segment(&seg(0x1_0000_0000)).unwrap();
    assert_eq!(out1, seg(0));
    let out2 = p.process_segment(&seg(0x1_0000_0064)).unwrap();
    assert_eq!(out2, seg(100));
}

#[test]
fn processor_saturates_backward_jump_at_zero() {
    let seg = |v: u32| {
        let mut tfdt_payload = vec![0u8, 0, 0, 0];
        tfdt_payload.extend_from_slice(&be32(v));
        let mut traf_payload = bx(b"tfhd", &[0, 0, 0, 0, 0, 0, 0, 1]);
        traf_payload.extend_from_slice(&bx(b"tfdt", &tfdt_payload));
        bx(b"moof", &bx(b"traf", &traf_payload))
    };
    let mut p = FragmentedMP4Processor::new();
    let _ = p.process_segment(&seg(800)).unwrap();
    // A decode time before the captured base saturates at zero.
    let out = p.process_segment(&seg(500)).unwrap();
    assert_eq!(out, seg(0));
}
