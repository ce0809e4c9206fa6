use snapcompact::builder::{FrameHeader, SnapshotBuilder, SnapshotHeader};
use snapcompact::codec::{
    decode_frame_header, decode_log_header, decode_snapshot_header, encode_frame_header,
    encode_snapshot_header, LogHeader, FRAME_HEADER_SIZE, SNAPSHOT_HEADER_SIZE,
};
use snapcompact::lookup::{find_snapshot_file, snapshot_positions};
use snapcompact::naming::{format_snapshot_name, parse_snapshot_name, push_decimal, snapshot_dir_path};

const ID: u128 = 0x936d_a01f_9abd_4d9d_80c7_02af_85c8_22a8;

#[test]
fn name_format_is_canonical() {
    let name = format_snapshot_name(ID, 0, 49);
    assert_eq!(name, "936da01f-9abd-4d9d-80c7-02af85c822a8-0-49.snap");
    let big = format_snapshot_name(1, 10, u64::MAX);
    assert_eq!(big, "00000000-0000-0000-0000-000000000001-10-18446744073709551615.snap");
}

#[test]
fn name_round_trip() {
    for (s, e) in [(0u64, 0u64), (7, 123456), (u64::MAX - 1, u64::MAX)] {
        let name = format_snapshot_name(ID, s, e);
        assert_eq!(parse_snapshot_name(&name), Some((ID, s, e)));
    }
}

#[test]
fn name_parse_rejects_upper_case_id() {
    assert_eq!(parse_snapshot_name("936DA01F-9ABD-4D9D-80C7-02AF85C822A8-3-4.snap"), None);
    assert_eq!(parse_snapshot_name("936da01f-9abd-4d9d-80c7-02af85c822A8-3-4.snap"), None);
}

#[test]
fn snapshot_positions_skip_other_files() {
    let names = vec![
        "notes.txt".to_string(),
        format_snapshot_name(ID, 0, 9),
        "936DA01F-9ABD-4D9D-80C7-02AF85C822A8-3-4.snap".to_string(),
        format_snapshot_name(ID, 10, 19),
    ];
    assert_eq!(snapshot_positions(&names), vec![1, 3]);
    assert!(snapshot_positions(&Vec::new()).is_empty());
}

#[test]
fn append_frames_in_runs() {
    let f = |frame_no, page_no| FrameHeader { frame_no, checksum: 0, page_no, size_after: 7 };
    let mut b = SnapshotBuilder::new(ID);
    let first = b.append_frames(&vec![f(9, 1), f(8, 2)]);
    let second = b.append_frames(&vec![f(5, 2), f(4, 3)]);
    assert_eq!(first.len(), 2);
    assert_eq!(second, vec![FrameHeader { frame_no: 4, checksum: 0, page_no: 3, size_after: 0 }]);
    let h = b.header();
    assert_eq!((h.start_frame_no, h.end_frame_no, h.frame_count, h.size_after), (4, 9, 3, 7));
}

#[test]
fn name_parse_rejects_malformed() {
    let bad = [
        "",
        "notes.txt",
        "936da01f-9abd-4d9d-80c7-02af85c822a8--4.snap",
        "936da01f-9abd-4d9d-80c7-02af85c822a8-3-.snap",
        "936da01f-9abd-4d9d-80c7-02af85c822a8-3-4.snapx",
        "936da01f-9abd-4d9d-80c7-02af85c822a8-3-4.tmp",
        "936da01f_9abd-4d9d-80c7-02af85c822a8-3-4.snap",
        "936da01g-9abd-4d9d-80c7-02af85c822a8-3-4.snap",
        "936da01f-9abd-4d9d-80c7-02af85c822a8-3-18446744073709551616.snap",
    ];
    for name in bad {
        assert_eq!(parse_snapshot_name(name), None, "{name}");
    }
}

#[test]
fn decimal_text() {
    let mut s = String::from("x");
    push_decimal(&mut s, 1234567890);
    assert_eq!(s, "x1234567890");
}

#[test]
fn lookup_hit_miss() {
    let names = vec![
        "unrelated".to_string(),
        format_snapshot_name(ID, 0, 9),
        format_snapshot_name(ID, 10, 19),
    ];
    assert_eq!(find_snapshot_file(&names, 7), Some(1));
    assert_eq!(find_snapshot_file(&names, 10), Some(2));
    assert_eq!(find_snapshot_file(&names, 19), Some(2));
    assert_eq!(find_snapshot_file(&names, 25), None);
    assert_eq!(find_snapshot_file(&Vec::new(), 0), None);
}

#[test]
fn builder_keeps_newest_version() {
    let mut b = SnapshotBuilder::new(ID);
    let f = |frame_no, page_no, size_after| FrameHeader { frame_no, checksum: 9, page_no, size_after };
    assert_eq!(b.append_frame(f(10, 1, 3)), Some(f(10, 1, 0)));
    assert_eq!(b.append_frame(f(8, 2, 0)), Some(f(8, 2, 0)));
    assert_eq!(b.append_frame(f(5, 1, 2)), None);
    let h = b.header();
    assert_eq!(
        h,
        SnapshotHeader { log_id: ID, start_frame_no: 5, end_frame_no: 10, frame_count: 2, size_after: 3 }
    );
}

#[test]
fn empty_builder_header() {
    let b = SnapshotBuilder::new(ID);
    let (_, h) = b.finish();
    assert_eq!(h.start_frame_no, u64::MAX);
    assert_eq!(h.end_frame_no, 0);
    assert_eq!(h.frame_count, 0);
}

#[test]
fn snapshot_header_bytes() {
    let h = SnapshotHeader {
        log_id: 0x0102,
        start_frame_no: 3,
        end_frame_no: 0x0405,
        frame_count: 6,
        size_after: 7,
    };
    let b = encode_snapshot_header(&h);
    assert_eq!(b.len(), SNAPSHOT_HEADER_SIZE);
    assert_eq!(&b[0..3], &[2, 1, 0]);
    assert_eq!(b[16], 3);
    assert_eq!(&b[24..26], &[5, 4]);
    assert_eq!(b[32], 6);
    assert_eq!(b[40], 7);
    assert_eq!(&b[44..48], &[0, 0, 0, 0]);
    assert_eq!(decode_snapshot_header(&b), Some(h));
    assert_eq!(decode_snapshot_header(&b[..47]), None);
}

#[test]
fn frame_header_bytes() {
    let f = FrameHeader { frame_no: u64::MAX, checksum: 0x1122, page_no: 0xdead_beef, size_after: 1 };
    let b = encode_frame_header(&f);
    assert_eq!(b.len(), FRAME_HEADER_SIZE);
    assert_eq!(&b[8..10], &[0x22, 0x11]);
    assert_eq!(&b[16..20], &[0xef, 0xbe, 0xad, 0xde]);
    assert_eq!(decode_frame_header(&b), Some(f));
    assert_eq!(decode_frame_header(&b[..23]), None);
}

#[test]
fn log_header_fields() {
    let mut b = vec![0u8; 64];
    b[16] = 0xaa;
    b[31] = 0x01;
    b[32] = 42;
    b[40] = 3;
    let h = decode_log_header(&b).unwrap();
    assert_eq!(h, LogHeader { log_id: (1u128 << 120) | 0xaa, start_frame_no: 42, frame_count: 3 });
    assert_eq!(decode_log_header(&b[..63]), None);
}

#[test]
fn snapshot_dir_path_joins() {
    assert_eq!(snapshot_dir_path("/data/db"), "/data/db/snapshots");
    assert_eq!(snapshot_dir_path("/data/db/"), "/data/db/snapshots");
    assert_eq!(snapshot_dir_path(""), "snapshots");
}
