use train::partition;

#[test]
fn partition_concrete_scenario() {
    // A 100-byte resource with 30-byte chunks: four ranges, the last short.
    let r = partition(100, 30);
    let got: Vec<(usize, usize)> = r.iter().map(|c| (c.start, c.end)).collect();
    assert_eq!(got, vec![(0, 29), (30, 59), (60, 89), (90, 99)]);
}

#[test]
fn range_len_counts_inclusive_bytes() {
    let r = partition(100, 30);
    assert_eq!(r[0].len(), 30);
    assert_eq!(r[3].len(), 10);
}

#[test]
fn partition_zero_size_is_empty() {
    assert_eq!(partition(0, 8).len(), 0);
}

#[test]
fn partition_exact_multiple() {
    let r = partition(60, 30);
    let got: Vec<(usize, usize)> = r.iter().map(|c| (c.start, c.end)).collect();
    assert_eq!(got, vec![(0, 29), (30, 59)]);
}

#[test]
fn partition_chunk_larger_than_size() {
    let r = partition(10, 100);
    let got: Vec<(usize, usize)> = r.iter().map(|c| (c.start, c.end)).collect();
    assert_eq!(got, vec![(0, 9)]);
}

#[test]
fn partition_single_byte_chunks() {
    let r = partition(3, 1);
    let got: Vec<(usize, usize)> = r.iter().map(|c| (c.start, c.end)).collect();
    assert_eq!(got, vec![(0, 0), (1, 1), (2, 2)]);
}

#[test]
fn partition_of_the_largest_size_is_one_range() {
    let r = partition(usize::MAX, usize::MAX);
    let got: Vec<(usize, usize)> = r.iter().map(|c| (c.start, c.end)).collect();
    assert_eq!(got, vec![(0, usize::MAX - 1)]);
}

#[test]
fn partition_is_ascending_and_gap_free() {
    let size = 1000;
    let r = partition(size, 7);
    assert_eq!(r[0].start, 0);
    for w in r.windows(2) {
        assert!(w[0].end < w[1].start);
        assert_eq!(w[0].end + 1, w[1].start);
    }
    assert_eq!(r[r.len() - 1].end, size - 1);
    for c in &r[..r.len() - 1] {
        assert_eq!(c.end - c.start + 1, 7);
    }
    assert_eq!(r[r.len() - 1].end - r[r.len() - 1].start + 1, 1000 % 7);
}
