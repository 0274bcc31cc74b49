use lattice::storage::gorilla::{decode, encode, try_decode};

fn bits(points: &[(i64, f64)]) -> Vec<(i64, u64)> {
    points.iter().map(|&(ts, v)| (ts, v.to_bits())).collect()
}

fn floats(points: &[(i64, u64)]) -> Vec<(i64, f64)> {
    points.iter().map(|&(ts, v)| (ts, f64::from_bits(v))).collect()
}

fn check(points: Vec<(i64, f64)>) {
    let encoded = encode(&bits(&points));
    assert_eq!(floats(&decode(&encoded, points.len())), points);
}

#[test]
fn empty() {
    assert_eq!(decode(&encode(&[]), 0), Vec::new());
}

#[test]
fn regular_series() {
    let points: Vec<(i64, f64)> =
        (0..1000).map(|i| (1_700_000_000 + i * 10, 42.0 + (i as f64) * 0.5)).collect();
    check(points);
}

#[test]
fn irregular_and_constant() {
    check(vec![
        (100, 1.0),
        (137, 1.0),
        (140, 1.0),
        (300, -9.5),
        (305, f64::MAX),
        (306, 0.0),
    ]);
}

#[test]
fn large_timestamp_jumps() {
    check(vec![
        (0, 1.0),
        (10, 2.0),
        (1_000_000_000, 3.0),
        (1_000_000_001, 4.0),
        (500, 5.0),
    ]);
}

#[test]
fn first_point_is_stored_raw() {
    assert_eq!(
        encode(&[(1, 2)]),
        vec![0, 0, 0, 0, 0, 0, 0, 1, 0, 0, 0, 0, 0, 0, 0, 2]
    );
}

#[test]
fn repeated_point_takes_two_bits() {
    // the second point has delta 0 and the same value: one bit each
    let encoded = encode(&[(0, 7), (0, 7)]);
    assert_eq!(encoded.len(), 17);
    assert_eq!(encoded[16], 0);
}

#[test]
fn small_delta_takes_nine_bits() {
    // delta of delta 10 in the seven-bit bucket: 10, then 0001010, then 0 for the value
    let encoded = encode(&[(0, 7), (10, 7)]);
    assert_eq!(&encoded[16..], &[0b1000_0101, 0b0000_0000]);
}

#[test]
fn every_delta_bucket_reads_back() {
    for d in [0i64, 1, -1, 63, 64, -63, -64, 255, 256, 2047, 2048, -2048, 1 << 40, -(1 << 40)] {
        let points = vec![(5, 1), (5 + d, 2), (5 + 3 * d, 3)];
        assert_eq!(decode(&encode(&points), 3), points);
    }
}

#[test]
fn extreme_timestamps_read_back() {
    let points = vec![(i64::MIN, 1), (i64::MAX, u64::MAX), (0, 0), (i64::MIN, 1 << 63)];
    assert_eq!(decode(&encode(&points), 4), points);
}

#[test]
fn cut_data_are_noticed() {
    let encoded = encode(&[(0, 7), (10, 8)]);
    assert_eq!(try_decode(&encoded, 2), Some(vec![(0, 7), (10, 8)]));
    assert_eq!(try_decode(&encoded[..16], 2), None);
    assert_eq!(try_decode(&encoded[..8], 1), None);
    assert_eq!(try_decode(&[], 0), Some(vec![]));
}
