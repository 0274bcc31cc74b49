use lattice::error::LatticeError;
use lattice::storage::manifest::Manifest;
use lattice::storage::naming::{next_segment_id, parse_segment_id, segment_name};
use lattice::storage::segment::Segment;
use lattice::storage::wal::Wal;
use lattice::storage::{compaction, Point};

fn corrupt_text(e: LatticeError) -> String {
    match e {
        LatticeError::Corrupt(text) => text,
        other => panic!("unexpected error {other:?}"),
    }
}

#[test]
fn record_has_little_endian_fields() {
    let p = Point { series: 1, ts: -2, value: 1.5f64.to_bits() };
    assert_eq!(
        Wal::append(p),
        vec![
            1, 0, 0, 0, 0, 0, 0, 0, 254, 255, 255, 255, 255, 255, 255, 255, 0, 0, 0, 0, 0, 0, 248,
            63
        ]
    );
}

#[test]
fn log_replays_its_points() {
    let points = vec![
        Point { series: 7, ts: 100, value: 1 },
        Point { series: 7, ts: -100, value: u64::MAX },
        Point { series: u64::MAX, ts: i64::MIN, value: 0 },
    ];
    let mut log = Vec::new();
    for p in &points {
        log.extend(Wal::append(*p));
    }
    assert_eq!(Wal::replay(&log), points);
    assert_eq!(Wal::replay(&[]), vec![]);
}

#[test]
fn torn_record_is_left_out() {
    let p = Point { series: 7, ts: 100, value: 1 };
    let mut log = Wal::append(p);
    log.extend(&Wal::append(p)[..23]);
    assert_eq!(Wal::replay(&log), vec![p]);
}

#[test]
fn segment_names_are_padded() {
    assert_eq!(segment_name(0), "seg-00000000.lsm");
    assert_eq!(segment_name(42), "seg-00000042.lsm");
    assert_eq!(segment_name(123_456_789), "seg-123456789.lsm");
    assert_eq!(segment_name(u64::MAX), "seg-18446744073709551615.lsm");
}

#[test]
fn segment_names_tell_their_id() {
    for id in [0, 7, 99_999_999, 100_000_000, u64::MAX] {
        assert_eq!(parse_segment_id(&segment_name(id)), Some(id));
    }
    assert_eq!(parse_segment_id("seg-+5.lsm"), Some(5));
    for name in [
        "",
        "seg-.lsm",
        "seg-+.lsm",
        "seg--1.lsm",
        "seg-1.lsx",
        "sag-1.lsm",
        "seg-1 .lsm",
        "seg.lsm",
        "seg-18446744073709551616.lsm",
        "seg-99999999999999999999999.lsm",
    ] {
        assert_eq!(parse_segment_id(name), None, "{name}");
    }
}

#[test]
fn next_id_follows_the_highest() {
    let names = |v: &[&str]| v.iter().map(|s| s.to_string()).collect::<Vec<String>>();
    assert_eq!(next_segment_id(&[]), Some(0));
    assert_eq!(next_segment_id(&names(&["other"])), Some(0));
    assert_eq!(
        next_segment_id(&names(&["seg-00000009.lsm", "other", "seg-00000004.lsm"])),
        Some(10)
    );
    assert_eq!(next_segment_id(&[segment_name(u64::MAX)]), None);
}

#[test]
fn manifest_lists_names() {
    assert!(Manifest::open(None).segments().is_empty());
    let m = Manifest::open(Some("  a.lsm \r\n\n\t\u{3000}b c.lsm\u{a0}\n   \nlast"));
    assert_eq!(m.segments(), ["a.lsm", "b c.lsm", "last"]);
}

#[test]
fn manifest_text_reads_back() {
    let mut m = Manifest::open(None);
    assert_eq!(m.add("one"), "one\n");
    let text = m.add("two");
    assert_eq!(text, "one\ntwo\n");
    assert_eq!(Manifest::open(Some(&text)).segments(), ["one", "two"]);
    assert_eq!(m.replace(vec!["three".to_string()]), "three\n");
    assert_eq!(m.segments(), ["three"]);
    assert_eq!(m.replace(vec![]), "");
}

#[test]
fn empty_segment_is_a_header() {
    assert_eq!(Segment::build(&[]), vec![0x47, 0x45, 0x53, 0x4c, 1, 0, 0, 0, 0, 0, 0, 0]);
}

#[test]
fn segment_layout() {
    let data = Segment::build(&[(3, vec![(1, 2)]), (9, vec![])]);
    assert_eq!(data.len(), 12 + 2 * 24 + 16);
    assert_eq!(&data[8..12], &[2, 0, 0, 0]);
    // series 3 at offset 60 with 16 bytes and one point
    assert_eq!(&data[12..20], &[3, 0, 0, 0, 0, 0, 0, 0]);
    assert_eq!(&data[20..28], &[60, 0, 0, 0, 0, 0, 0, 0]);
    assert_eq!(&data[28..36], &[16, 0, 0, 0, 1, 0, 0, 0]);
    // series 9 behind it, without bytes or points
    assert_eq!(&data[36..44], &[9, 0, 0, 0, 0, 0, 0, 0]);
    assert_eq!(&data[44..52], &[76, 0, 0, 0, 0, 0, 0, 0]);
    assert_eq!(&data[52..60], &[0, 0, 0, 0, 0, 0, 0, 0]);
}

#[test]
fn segment_reads_back() {
    let blocks = vec![(1, vec![(10, 1), (20, 2), (20, 3)]), (5, vec![(-1, 9)])];
    let seg = Segment::open("dir/x".to_string(), Segment::build(&blocks)).unwrap();
    assert_eq!(seg.series_ids(), vec![1, 5]);
    assert_eq!(seg.path(), "dir/x");
    assert!(seg.can_serve(1) && seg.can_serve(5) && seg.can_serve(2));
    assert_eq!(seg.read_series(1), vec![(10, 1), (20, 2), (20, 3)]);
    assert_eq!(seg.read_series(5), vec![(-1, 9)]);
    assert_eq!(seg.read_series(2), vec![]);
    assert_eq!(seg.query(1, 10, 20), vec![(10, 1)]);
    assert_eq!(seg.query(1, 11, 21), vec![(20, 2), (20, 3)]);
    assert_eq!(seg.query(1, 20, 20), vec![]);
}

#[test]
fn bad_segments_are_refused() {
    let short = Segment::open("p".to_string(), vec![0x47, 0x45, 0x53]).err().unwrap();
    assert_eq!(corrupt_text(short), "p: short header");
    let magic = Segment::open("q".to_string(), vec![0; 12]).err().unwrap();
    assert_eq!(corrupt_text(magic), "q: bad magic");
}

#[test]
fn cut_segments_are_noticed() {
    let data = Segment::build(&[(1, vec![(10, 1), (20, 2)])]);
    assert!(Segment::index_complete(&data));
    assert!(!Segment::index_complete(&data[..35]));
    assert!(Segment::index_complete(&data[..36]));
    let seg = Segment::open("p".to_string(), data[..40].to_vec()).unwrap();
    assert!(!seg.can_serve(1));
    assert!(seg.can_serve(2));
}

#[test]
fn later_segments_win_in_compaction() {
    let a = Segment::build(&[(1, vec![(10, 1), (20, 2)]), (2, vec![(5, 5)])]);
    let b = Segment::build(&[(1, vec![(20, 7), (30, 8)]), (3, vec![(6, 6), (6, 7)])]);
    let segments = vec![
        Segment::open("a".to_string(), a).unwrap(),
        Segment::open("b".to_string(), b).unwrap(),
    ];
    let merged = Segment::open("c".to_string(), compaction::compact(&segments)).unwrap();
    assert_eq!(merged.series_ids(), vec![1, 2, 3]);
    assert_eq!(merged.read_series(1), vec![(10, 1), (20, 7), (30, 8)]);
    assert_eq!(merged.read_series(2), vec![(5, 5)]);
    assert_eq!(merged.read_series(3), vec![(6, 7)]);
}
