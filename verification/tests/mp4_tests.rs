//! Byte-level tests for the box reader, codecs, reset engine,
//! defragmenter, streaming adjuster and thumbnail extraction.

use ts2mp4::boxes::{find_box_path, parse_container_box, parse_mp4, write_box, BoxInfo};
use ts2mp4::codecs::{
    parse_co64, parse_ctts, parse_hdlr, parse_mdhd, parse_mvhd, parse_stco, parse_stsc,
    parse_stsz, parse_stts, read_full_box_header, read_tfdt_value, MediaType,
};
use ts2mp4::defrag::defragment_mp4;
use ts2mp4::reader::Mp4Reader;
use ts2mp4::reset::reset_mp4_timestamps;
use ts2mp4::streaming::FragmentedMP4Processor;
use ts2mp4::thumbnail::{convert_avcc_to_annexb, extract_thumbnail_from_mp4};
use ts2mp4::Mp4Error;

// ---- helpers that assemble boxes byte by byte ----

fn bx(tag: &[u8; 4], payload: &[u8]) -> Vec<u8> {
    let mut v = Vec::new();
    v.extend_from_slice(&((8 + payload.len()) as u32).to_be_bytes());
    v.extend_from_slice(tag);
    v.extend_from_slice(payload);
    v
}

fn be32(v: u32) -> [u8; 4] {
    v.to_be_bytes()
}

fn mvhd_v0(creation: u32, modification: u32, timescale: u32, duration: u32) -> Vec<u8> {
    let mut p = vec![0u8, 0, 0, 0];
    p.extend_from_slice(&be32(creation));
    p.extend_from_slice(&be32(modification));
    p.extend_from_slice(&be32(timescale));
    p.extend_from_slice(&be32(duration));
    p.extend_from_slice(&[0u8; 80]);
    bx(b"mvhd", &p)
}

fn tkhd_v0(track_id: u32) -> Vec<u8> {
    let mut p = vec![0u8, 0, 0, 7];
    p.extend_from_slice(&be32(11)); // creation
    p.extend_from_slice(&be32(22)); // modification
    p.extend_from_slice(&be32(track_id));
    p.extend_from_slice(&be32(0)); // reserved
    p.extend_from_slice(&be32(0)); // duration
    p.extend_from_slice(&[0u8; 60]);
    bx(b"tkhd", &p)
}

fn mdhd_v0(timescale: u32, duration: u32) -> Vec<u8> {
    let mut p = vec![0u8, 0, 0, 0];
    p.extend_from_slice(&be32(33)); // creation
    p.extend_from_slice(&be32(44)); // modification
    p.extend_from_slice(&be32(timescale));
    p.extend_from_slice(&be32(duration));
    p.extend_from_slice(&be32(0)); // language + pre_defined
    bx(b"mdhd", &p)
}

fn hdlr_box(handler: &[u8; 4]) -> Vec<u8> {
    let mut p = vec![0u8, 0, 0, 0];
    p.extend_from_slice(&be32(0));
    p.extend_from_slice(handler);
    p.extend_from_slice(&[0u8; 12]);
    bx(b"hdlr", &p)
}

fn stbl_with_stsd() -> Vec<u8> {
    let stsd = bx(b"stsd", &[0, 0, 0, 0, 0, 0, 0, 0]);
    bx(b"stbl", &stsd)
}

fn trak(track_id: u32, timescale: u32, handler: &[u8; 4]) -> Vec<u8> {
    let minf = bx(b"minf", &stbl_with_stsd());
    let mut mdia_payload = mdhd_v0(timescale, 0);
    mdia_payload.extend_from_slice(&hdlr_box(handler));
    mdia_payload.extend_from_slice(&minf);
    let mdia = bx(b"mdia", &mdia_payload);
    let mut p = tkhd_v0(track_id);
    p.extend_from_slice(&mdia);
    bx(b"trak", &p)
}

fn tfhd(track_id: u32) -> Vec<u8> {
    let mut p = vec![0u8, 0, 0, 0];
    p.extend_from_slice(&be32(track_id));
    bx(b"tfhd", &p)
}

fn tfdt_v0(value: u32) -> Vec<u8> {
    let mut p = vec![0u8, 0, 0, 0];
    p.extend_from_slice(&be32(value));
    bx(b"tfdt", &p)
}

/// trun with data_offset, per-sample duration and size.
fn trun(samples: &[(u32, u32)], data_offset: i32) -> Vec<u8> {
    let mut p = vec![0u8, 0, 3, 1]; // flags: data_offset | duration | size
    p.extend_from_slice(&be32(samples.len() as u32));
    p.extend_from_slice(&data_offset.to_be_bytes());
    for (d, s) in samples {
        p.extend_from_slice(&be32(*d));
        p.extend_from_slice(&be32(*s));
    }
    bx(b"trun", &p)
}

/// One moof/mdat pair for a single track; the trun's data offset
/// points at the paired mdat's payload.
fn fragment(track_id: u32, tfdt_value: u32, samples: &[(u32, u32)], payload: &[u8]) -> Vec<u8> {
    // The traf length is fixed by the sample count, so the moof size
    // (and with it the data offset) can be computed up front.
    let traf_len = 8 + 16 + 16 + (8 + 12 + 8 * samples.len());
    let moof_size = 8 + traf_len;
    let mut traf_payload = tfhd(track_id);
    traf_payload.extend_from_slice(&tfdt_v0(tfdt_value));
    traf_payload.extend_from_slice(&trun(samples, (moof_size + 8) as i32));
    let traf = bx(b"traf", &traf_payload);
    let moof = bx(b"moof", &traf);
    assert_eq!(moof.len(), moof_size);
    let mut v = moof;
    v.extend_from_slice(&bx(b"mdat", payload));
    v
}

fn flat_file() -> Vec<u8> {
    let mut moov_payload = mvhd_v0(1, 2, 1000, 5000);
    moov_payload.extend_from_slice(&trak(1, 90000, b"vide"));
    let moov = bx(b"moov", &moov_payload);
    let mut f = bx(b"ftyp", b"isom\x00\x00\x00\x02isom");
    f.extend_from_slice(&moov);
    f.extend_from_slice(&bx(b"mdat", &[1, 2, 3, 4]));
    f
}

// ---- tests carried over from the original modules ----

#[test]
fn test_processor_creation() {
    let processor = FragmentedMP4Processor::new();
    assert!(processor.init_segment.is_empty());
    assert!(processor.base_decode_time.is_none());
}

#[test]
fn test_mp4_reader() {
    let data = vec![0x00, 0x00, 0x00, 0x01, 0x12, 0x34, 0x56, 0x78];
    let mut reader = Mp4Reader::new(&data);

    assert_eq!(reader.read_u32().unwrap(), 1);
    assert_eq!(reader.read_u32().unwrap(), 0x12345678);
}

#[test]
fn test_full_box_header() {
    let data = vec![0x01, 0x00, 0x00, 0x03]; // version=1, flags=3
    let (version, flags) = read_full_box_header(&data).unwrap();

    assert_eq!(version, 1);
    assert_eq!(flags, 3);
}

#[test]
fn test_convert_avcc_to_annexb() {
    // Simple test with one NAL unit
    let avcc = vec![
        0x00, 0x00, 0x00, 0x05, // length = 5
        0x67, 0x01, 0x02, 0x03, 0x04, // NAL data
    ];

    let annexb = convert_avcc_to_annexb(&avcc).unwrap();

    assert_eq!(annexb[0..4], [0x00, 0x00, 0x00, 0x01]); // start code
    assert_eq!(annexb[4..9], [0x67, 0x01, 0x02, 0x03, 0x04]); // NAL data
}

// ---- parser and codec tests ----

#[test]
fn parse_mp4_classifies_entries() {
    let f = flat_file();
    let parsed = parse_mp4(&f).unwrap();
    assert!(parsed.ftyp.is_some());
    assert!(parsed.moov.is_some());
    let mdat = parsed.mdat.unwrap();
    assert_eq!(mdat.data_size, 4);
    assert_eq!(&f[mdat.data_offset..mdat.data_offset + 4], &[1, 2, 3, 4]);
    assert_eq!(parsed.all_boxes_in_order.len(), 3);
    assert_eq!(parsed.boxes.len(), 2);
}

#[test]
fn parse_mp4_rejects_truncated_box() {
    // Declares 32 bytes but only 12 are present.
    let mut f = Vec::new();
    f.extend_from_slice(&be32(32));
    f.extend_from_slice(b"free");
    f.extend_from_slice(&be32(0));
    assert_eq!(parse_mp4(&f).unwrap_err(), Mp4Error::TruncatedData);
}

#[test]
fn parse_mp4_rejects_small_size() {
    let mut f = Vec::new();
    f.extend_from_slice(&be32(3));
    f.extend_from_slice(b"free");
    assert_eq!(parse_mp4(&f).unwrap_err(), Mp4Error::MalformedBox);
}

#[test]
fn parse_mp4_rejects_trailing_fragment() {
    let mut f = bx(b"free", &[]);
    f.extend_from_slice(&[0, 0, 0]); // 3 stray bytes
    assert_eq!(parse_mp4(&f).unwrap_err(), Mp4Error::TruncatedData);
}

#[test]
fn parse_mp4_empty_input() {
    let parsed = parse_mp4(&[]).unwrap();
    assert!(parsed.ftyp.is_none());
    assert!(parsed.all_boxes_in_order.is_empty());
}

#[test]
fn timestamp_box_both_versions() {
    let v0 = mvhd_v0(7, 8, 1000, 90)[8..].to_vec();
    let ti = parse_mvhd(&v0).unwrap();
    assert_eq!(ti.creation_time, 7);
    assert_eq!(ti.modification_time, 8);
    assert_eq!(ti.timescale, 1000);
    assert_eq!(ti.duration, 90);

    let mut v1 = vec![1u8, 0, 0, 0];
    v1.extend_from_slice(&100u64.to_be_bytes());
    v1.extend_from_slice(&200u64.to_be_bytes());
    v1.extend_from_slice(&be32(48000));
    v1.extend_from_slice(&300u64.to_be_bytes());
    let ti = parse_mdhd(&v1).unwrap();
    assert_eq!(ti.creation_time, 100);
    assert_eq!(ti.modification_time, 200);
    assert_eq!(ti.timescale, 48000);
    assert_eq!(ti.duration, 300);

    assert_eq!(parse_mvhd(&[0u8, 0, 0]).unwrap_err(), Mp4Error::TruncatedData);
}

#[test]
fn sample_table_parsers() {
    // stts: two runs
    let mut p = vec![0u8, 0, 0, 0];
    p.extend_from_slice(&be32(2));
    p.extend_from_slice(&be32(3));
    p.extend_from_slice(&be32(100));
    p.extend_from_slice(&be32(1));
    p.extend_from_slice(&be32(50));
    let es = parse_stts(&p).unwrap();
    assert_eq!(es.len(), 2);
    assert_eq!((es[0].sample_count, es[0].sample_delta), (3, 100));
    assert_eq!((es[1].sample_count, es[1].sample_delta), (1, 50));

    // ctts: a negative offset read as signed
    let mut p = vec![0u8, 0, 0, 0];
    p.extend_from_slice(&be32(1));
    p.extend_from_slice(&be32(2));
    p.extend_from_slice(&(-5i32).to_be_bytes());
    let es = parse_ctts(&p).unwrap();
    assert_eq!(es[0].sample_count, 2);
    assert_eq!(es[0].sample_offset, -5);

    // stsz with a shared size
    let mut p = vec![0u8, 0, 0, 0];
    p.extend_from_slice(&be32(16));
    p.extend_from_slice(&be32(3));
    assert_eq!(parse_stsz(&p).unwrap(), vec![16, 16, 16]);

    // stsz with per-sample sizes
    let mut p = vec![0u8, 0, 0, 0];
    p.extend_from_slice(&be32(0));
    p.extend_from_slice(&be32(2));
    p.extend_from_slice(&be32(10));
    p.extend_from_slice(&be32(20));
    assert_eq!(parse_stsz(&p).unwrap(), vec![10, 20]);

    // stco / co64
    let mut p = vec![0u8, 0, 0, 0];
    p.extend_from_slice(&be32(2));
    p.extend_from_slice(&be32(64));
    p.extend_from_slice(&be32(128));
    assert_eq!(parse_stco(&p).unwrap(), vec![64, 128]);

    let mut p = vec![0u8, 0, 0, 0];
    p.extend_from_slice(&be32(1));
    p.extend_from_slice(&0x1_0000_0000u64.to_be_bytes());
    assert_eq!(parse_co64(&p).unwrap(), vec![0x1_0000_0000]);

    // stsc
    let mut p = vec![0u8, 0, 0, 0];
    p.extend_from_slice(&be32(1));
    p.extend_from_slice(&be32(1));
    p.extend_from_slice(&be32(4));
    p.extend_from_slice(&be32(1));
    let es = parse_stsc(&p).unwrap();
    assert_eq!(es[0].first_chunk, 1);
    assert_eq!(es[0].samples_per_chunk, 4);
    assert_eq!(es[0].sample_description_index, 1);

    // a declared count that exceeds the payload is truncated data
    let mut p = vec![0u8, 0, 0, 0];
    p.extend_from_slice(&be32(9));
    assert_eq!(parse_stts(&p).unwrap_err(), Mp4Error::TruncatedData);
}

#[test]
fn hdlr_media_types() {
    let vide = hdlr_box(b"vide")[8..].to_vec();
    let soun = hdlr_box(b"soun")[8..].to_vec();
    let text = hdlr_box(b"text")[8..].to_vec();
    assert_eq!(parse_hdlr(&vide).unwrap(), MediaType::Video);
    assert_eq!(parse_hdlr(&soun).unwrap(), MediaType::Audio);
    assert_eq!(parse_hdlr(&text).unwrap(), MediaType::Unknown);
}

#[test]
fn find_box_path_descends() {
    let f = flat_file();
    let parsed = parse_mp4(&f).unwrap();
    let moov = parsed.moov.unwrap();
    let mdhd = find_box_path(&moov.data, &[b"trak", b"mdia", b"mdhd"])
        .unwrap()
        .unwrap();
    let ti = parse_mdhd(&mdhd.data).unwrap();
    assert_eq!(ti.timescale, 90000);
    assert!(find_box_path(&moov.data, &[b"trak", b"free"]).unwrap().is_none());
}

#[test]
fn write_box_roundtrip() {
    let mut out = Vec::new();
    write_box(&mut out, b"free", &[9, 8, 7]);
    let boxes = parse_container_box(&out).unwrap();
    assert_eq!(boxes.len(), 1);
    assert_eq!(&boxes[0].box_type, b"free");
    assert_eq!(boxes[0].data, vec![9, 8, 7]);
}

// ---- timestamp reset ----

#[test]
fn reset_zeroes_all_times_in_flat_file() {
    let f = flat_file();
    let out = reset_mp4_timestamps(&f).unwrap();
    let parsed = parse_mp4(&out).unwrap();
    let ts = ts2mp4::codecs::extract_all_timestamps(&parsed).unwrap();
    assert_eq!(ts.len(), 2); // mvhd + one mdhd
    for t in &ts {
        assert_eq!(t.creation_time, 0);
        assert_eq!(t.modification_time, 0);
    }
}

#[test]
fn reset_requires_moov() {
    let f = bx(b"mdat", &[1, 2, 3]);
    assert_eq!(reset_mp4_timestamps(&f).unwrap_err(), Mp4Error::MissingRequiredBox);
}

#[test]
fn reset_is_idempotent_on_flat_file() {
    let f = flat_file();
    let once = reset_mp4_timestamps(&f).unwrap();
    let twice = reset_mp4_timestamps(&once).unwrap();
    assert_eq!(once, twice);
}

#[test]
fn reset_rebases_tfdt_per_track() {
    // Track timescale ticks: tfdt 500 then 800 -> 0 then 300.
    let mut moov_payload = mvhd_v0(0, 0, 1000, 0);
    moov_payload.extend_from_slice(&trak(1, 1000, b"vide"));
    let moov = bx(b"moov", &moov_payload);

    let samples = [(100u32, 2u32); 4];
    let mut f = moov;
    f.extend_from_slice(&fragment(1, 500, &samples, &[0xaa; 8]));
    f.extend_from_slice(&fragment(1, 800, &samples, &[0xbb; 8]));

    let out = reset_mp4_timestamps(&f).unwrap();
    let parsed = parse_mp4(&out).unwrap();
    let mut tfdts = Vec::new();
    for b in &parsed.all_boxes_in_order {
        if let BoxInfo::Small(sb) = b {
            if &sb.box_type == b"moof" {
                let tfdt = find_box_path(&sb.data, &[b"traf", b"tfdt"]).unwrap().unwrap();
                tfdts.push(read_tfdt_value(&tfdt.data));
            }
        }
    }
    assert_eq!(tfdts, vec![0, 300]);
}

#[test]
fn reset_is_idempotent_on_fragmented_file() {
    let mut moov_payload = mvhd_v0(0, 0, 1000, 0);
    moov_payload.extend_from_slice(&trak(1, 1000, b"vide"));
    let moov = bx(b"moov", &moov_payload);
    let samples = [(100u32, 2u32); 4];
    let mut f = moov;
    f.extend_from_slice(&fragment(1, 500, &samples, &[0xaa; 8]));
    f.extend_from_slice(&fragment(1, 800, &samples, &[0xbb; 8]));

    let once = reset_mp4_timestamps(&f).unwrap();
    let twice = reset_mp4_timestamps(&once).unwrap();
    assert_eq!(once, twice);
}

// ---- defragmentation ----

#[test]
fn defragment_rejects_flat_file() {
    let f = flat_file();
    assert_eq!(defragment_mp4(&f).unwrap_err(), Mp4Error::NotFragmented);
}

#[test]
fn defragment_one_track_three_fragments() {
    // 3 fragments, tfdt 1000/2000/3000, 10 samples of duration 100
    // and size 4 each.
    let mut moov_payload = mvhd_v0(0, 0, 1000, 0);
    moov_payload.extend_from_slice(&trak(1, 1000, b"vide"));
    let moov = bx(b"moov", &moov_payload);

    let samples = [(100u32, 4u32); 10];
    let mut f = moov;
    for (i, tfdt) in [1000u32, 2000, 3000].iter().enumerate() {
        let payload: Vec<u8> = (0..40).map(|j| (i * 40 + j) as u8).collect();
        f.extend_from_slice(&fragment(1, *tfdt, &samples, &payload));
    }

    let out = defragment_mp4(&f).unwrap();
    let parsed = parse_mp4(&out).unwrap();
    let moov_out = parsed.moov.unwrap();

    // stts must encode one run: 30 samples of delta 100.
    let stts = find_box_path(&moov_out.data, &[b"trak", b"mdia", b"minf", b"stbl", b"stts"])
        .unwrap()
        .unwrap();
    let runs = parse_stts(&stts.data).unwrap();
    assert_eq!(runs.len(), 1);
    assert_eq!((runs[0].sample_count, runs[0].sample_delta), (30, 100));

    // stco: 30 entries strictly increasing by each sample's size.
    let stco = find_box_path(&moov_out.data, &[b"trak", b"mdia", b"minf", b"stbl", b"stco"])
        .unwrap()
        .unwrap();
    let offs = parse_stco(&stco.data).unwrap();
    assert_eq!(offs.len(), 30);
    for w in offs.windows(2) {
        assert_eq!(w[1], w[0] + 4);
    }

    // Offsets land inside the single mdat payload, whose bytes are the
    // fragments' sample bytes in arrival order.
    let mdat = parsed.mdat.unwrap();
    assert_eq!(offs[0], mdat.data_offset as u64);
    assert_eq!(offs[29] + 4, (mdat.data_offset + mdat.data_size) as u64);
    let expected: Vec<u8> = (0..120).map(|j| j as u8).collect();
    assert_eq!(&out[mdat.data_offset..mdat.data_offset + mdat.data_size], &expected[..]);
}

#[test]
fn defragment_two_tracks_keeps_order_and_video_bytes() {
    let mut moov_payload = mvhd_v0(0, 0, 1000, 0);
    moov_payload.extend_from_slice(&trak(1, 90000, b"vide"));
    moov_payload.extend_from_slice(&trak(2, 48000, b"soun"));
    let moov = bx(b"moov", &moov_payload);

    let vsamples = [(3000u32, 5u32); 2];
    let asamples = [(1024u32, 3u32); 2];
    let video_bytes = [0x11u8; 10];
    let audio_bytes = [0x22u8; 6];

    let mut f = moov;
    f.extend_from_slice(&fragment(1, 0, &vsamples, &video_bytes));
    f.extend_from_slice(&fragment(2, 0, &asamples, &audio_bytes));

    let out = defragment_mp4(&f).unwrap();
    let parsed = parse_mp4(&out).unwrap();
    let moov_out = parsed.moov.unwrap();

    // trak order matches the source: video (id 1) first, audio (id 2)
    // second.
    let children = parse_container_box(&moov_out.data).unwrap();
    let mut ids = Vec::new();
    for c in &children {
        if &c.box_type == b"trak" {
            let tkhd = find_box_path(&c.data, &[b"tkhd"]).unwrap().unwrap();
            ids.push(u32::from_be_bytes([
                tkhd.data[12],
                tkhd.data[13],
                tkhd.data[14],
                tkhd.data[15],
            ]));
        }
    }
    assert_eq!(ids, vec![1, 2]);

    // The single mdat's first bytes are exactly the video samples.
    let mdat = parsed.mdat.unwrap();
    let body = &out[mdat.data_offset..mdat.data_offset + mdat.data_size];
    assert_eq!(&body[..10], &video_bytes);
    assert_eq!(&body[10..], &audio_bytes);
}

// ---- streaming adjuster ----

#[test]
fn processor_rebases_segments_in_arrival_order() {
    // tfdt 500 (v0) -> 0, then 800 -> 300 in the next segment.
    let seg = |v: u32| {
        let mut traf_payload = tfhd(1);
        traf_payload.extend_from_slice(&tfdt_v0(v));
        let traf = bx(b"traf", &traf_payload);
        bx(b"moof", &traf)
    };
    let mut p = FragmentedMP4Processor::new();
    p.set_init_segment(&[0u8; 4]).unwrap();
    let out1 = p.process_segment(&seg(500)).unwrap();
    assert_eq!(out1, seg(0));
    assert_eq!(p.get_base_decode_time(), Some(500));
    let out2 = p.process_segment(&seg(800)).unwrap();
    assert_eq!(out2, seg(300));

    p.reset();
    assert_eq!(p.get_base_decode_time(), None);
    let out3 = p.process_segment(&seg(700)).unwrap();
    assert_eq!(out3, seg(0));
}

#[test]
fn processor_rejects_malformed_size() {
    let mut p = FragmentedMP4Processor::new();
    let mut seg = Vec::new();
    seg.extend_from_slice(&be32(3));
    seg.extend_from_slice(b"free");
    assert_eq!(p.process_segment(&seg).unwrap_err(), Mp4Error::MalformedBox);
}

// ---- thumbnail ----

#[test]
fn thumbnail_reads_first_sample_as_annexb() {
    // A flat file whose mdat holds one AVCC-framed sample of 5 bytes;
    // stsz declares a shared sample size of 9 (4-byte prefix + 5).
    let mut stsz_payload = vec![0u8, 0, 0, 0];
    stsz_payload.extend_from_slice(&be32(9));
    stsz_payload.extend_from_slice(&be32(1));
    let stsz = bx(b"stsz", &stsz_payload);
    let stbl = bx(b"stbl", &stsz);
    let minf = bx(b"minf", &stbl);
    let mdia = bx(b"mdia", &minf);
    let trak_box = bx(b"trak", &mdia);
    let moov = bx(b"moov", &trak_box);

    let mut avcc = Vec::new();
    avcc.extend_from_slice(&be32(5));
    avcc.extend_from_slice(&[0x65, 1, 2, 3, 4]);

    let mut f = bx(b"mdat", &avcc);
    f.extend_from_slice(&moov);

    let out = extract_thumbnail_from_mp4(&f).unwrap();
    assert_eq!(out, vec![0, 0, 0, 1, 0x65, 1, 2, 3, 4]);
}

#[test]
fn thumbnail_needs_mdat() {
    let moov = bx(b"moov", &[]);
    assert_eq!(
        extract_thumbnail_from_mp4(&moov).unwrap_err(),
        Mp4Error::MissingRequiredBox
    );
}

#[test]
fn avcc_conversion_stops_at_truncated_unit() {
    let mut avcc = Vec::new();
    avcc.extend_from_slice(&be32(3));
    avcc.extend_from_slice(&[7, 8, 9]);
    avcc.extend_from_slice(&be32(10)); // declares more than remains
    avcc.push(1);
    let out = convert_avcc_to_annexb(&avcc).unwrap();
    assert_eq!(out, vec![0, 0, 0, 1, 7, 8, 9]);
}

// ---- all-or-nothing error paths and byte-identical copying ----

/// A box written with the 16-byte extended-size header (size32 == 1).
fn bx_ext(tag: &[u8; 4], payload: &[u8]) -> Vec<u8> {
    let mut v = Vec::new();
    v.extend_from_slice(&1u32.to_be_bytes());
    v.extend_from_slice(tag);
    v.extend_from_slice(&((16 + payload.len()) as u64).to_be_bytes());
    v.extend_from_slice(payload);
    v
}

#[test]
fn reset_keeps_extended_header_box_byte_identical() {
    // A top-level free box with an extended header must come out of the
    // reset byte-for-byte, not re-serialized with a normalized header.
    let free = bx_ext(b"free", &[9, 8, 7, 6, 5]);
    let mut f = flat_file();
    f.extend_from_slice(&free);
    let out = reset_mp4_timestamps(&f).unwrap();
    assert!(out.len() >= free.len());
    assert_eq!(&out[out.len() - free.len()..], free.as_slice());
    // The mdat of flat_file() is also copied verbatim, header included.
    let mdat = bx(b"mdat", &[1, 2, 3, 4]);
    assert!(out
        .windows(mdat.len())
        .any(|w| w == mdat.as_slice()));
}

#[test]
fn reset_keeps_extended_header_moov_child_byte_identical() {
    // An untouched child of moov with an extended header keeps its
    // exact bytes inside the rewritten moov.
    let udta = bx_ext(b"udta", &[0xAA, 0xBB, 0xCC]);
    let mut moov_payload = mvhd_v0(1, 2, 1000, 5000);
    moov_payload.extend_from_slice(&udta);
    let moov = bx(b"moov", &moov_payload);
    let mut f = bx(b"ftyp", b"isom\x00\x00\x00\x02isom");
    f.extend_from_slice(&moov);
    let out = reset_mp4_timestamps(&f).unwrap();
    assert!(out
        .windows(udta.len())
        .any(|w| w == udta.as_slice()));
}

#[test]
fn defragment_rejects_sample_outside_mdat() {
    // One fragment declaring a 4-byte sample, but the paired mdat holds
    // only 2 payload bytes: the whole conversion must fail, not skip.
    let mut moov_payload = mvhd_v0(0, 0, 1000, 0);
    moov_payload.extend_from_slice(&trak(1, 90000, b"vide"));
    let moov = bx(b"moov", &moov_payload);
    let mut f = bx(b"ftyp", b"isom\x00\x00\x00\x02isom");
    f.extend_from_slice(&moov);
    f.extend_from_slice(&fragment(1, 0, &[(100, 4)], &[1, 2]));
    assert_eq!(defragment_mp4(&f).unwrap_err(), Mp4Error::TruncatedData);
}

#[test]
fn defragment_rejects_short_version_one_mvhd() {
    // A version-1 mvhd whose payload is too short for its declared
    // 64-bit fields must make the conversion fail, not be rewritten at
    // version-0 offsets.
    let short_mvhd = bx(b"mvhd", &[1u8, 0, 0, 0, 0, 0, 0, 0, 0, 0, 0, 0]);
    let mut moov_payload = short_mvhd;
    moov_payload.extend_from_slice(&trak(1, 90000, b"vide"));
    let moov = bx(b"moov", &moov_payload);
    let mut f = bx(b"ftyp", b"isom\x00\x00\x00\x02isom");
    f.extend_from_slice(&moov);
    f.extend_from_slice(&fragment(1, 0, &[(100, 2)], &[1, 2]));
    assert_eq!(defragment_mp4(&f).unwrap_err(), Mp4Error::TruncatedData);
}

#[test]
fn reset_rejects_short_version_one_tfdt() {
    // A version-1 tfdt without room for its 64-bit field fails the
    // whole reset.
    let short_tfdt = bx(b"tfdt", &[1u8, 0, 0, 0, 0, 0, 0, 0]);
    let mut traf_payload = tfhd(1);
    traf_payload.extend_from_slice(&short_tfdt);
    let traf = bx(b"traf", &traf_payload);
    let moof = bx(b"moof", &traf);
    let mut moov_payload = mvhd_v0(0, 0, 1000, 0);
    moov_payload.extend_from_slice(&trak(1, 90000, b"vide"));
    let moov = bx(b"moov", &moov_payload);
    let mut f = bx(b"ftyp", b"isom\x00\x00\x00\x02isom");
    f.extend_from_slice(&moov);
    f.extend_from_slice(&moof);
    f.extend_from_slice(&bx(b"mdat", &[1, 2]));
    assert_eq!(reset_mp4_timestamps(&f).unwrap_err(), Mp4Error::TruncatedData);
}

#[test]
fn reset_zeroes_version_one_times_at_64_bit_width() {
    // A version-1 mvhd: creation and modification are 64-bit fields;
    // both must be exactly zero after the reset, with the version
    // byte kept.
    let mut p = vec![1u8, 0, 0, 0];
    p.extend_from_slice(&7u64.to_be_bytes()); // creation
    p.extend_from_slice(&9u64.to_be_bytes()); // modification
    p.extend_from_slice(&be32(1000)); // timescale
    p.extend_from_slice(&5000u64.to_be_bytes()); // duration
    p.extend_from_slice(&[0u8; 80]);
    let mvhd = bx(b"mvhd", &p);
    let mut moov_payload = mvhd;
    moov_payload.extend_from_slice(&trak(1, 90000, b"vide"));
    let moov = bx(b"moov", &moov_payload);
    let mut f = bx(b"ftyp", b"isom\x00\x00\x00\x02isom");
    f.extend_from_slice(&moov);

    let out = reset_mp4_timestamps(&f).unwrap();
    let parsed = parse_mp4(&out).unwrap();
    let moov_out = parsed.moov.unwrap();
    let mvhd_out = find_box_path(&moov_out.data, &[b"mvhd"]).unwrap().unwrap();
    assert_eq!(mvhd_out.data[0], 1);
    assert_eq!(&mvhd_out.data[4..20], &[0u8; 16]);
    // Duration (bytes 20..32 hold timescale + 64-bit duration) is kept.
    assert_eq!(&mvhd_out.data[24..32], &5000u64.to_be_bytes());
}

#[test]
fn reset_is_idempotent_with_extended_header_box() {
    let mut f = flat_file();
    f.extend_from_slice(&bx_ext(b"free", &[1, 2, 3]));
    let once = reset_mp4_timestamps(&f).unwrap();
    let twice = reset_mp4_timestamps(&once).unwrap();
    assert_eq!(once, twice);
}
