use shardagg::shard_bounds;

#[test]
fn single_worker_takes_whole_file() {
    assert_eq!(shard_bounds(100, 1, 0), (0, 100));
}

#[test]
fn even_split() {
    assert_eq!(shard_bounds(90, 3, 0), (0, 30));
    assert_eq!(shard_bounds(90, 3, 1), (30, 60));
    assert_eq!(shard_bounds(90, 3, 2), (60, 90));
}

#[test]
fn last_worker_absorbs_remainder() {
    assert_eq!(shard_bounds(100, 3, 0), (0, 33));
    assert_eq!(shard_bounds(100, 3, 1), (33, 66));
    assert_eq!(shard_bounds(100, 3, 2), (66, 100));
}

#[test]
fn coverage_sums_to_file_size() {
    for &(size, w) in &[(0u64, 1u64), (1, 7), (100, 3), (1000, 16), (17, 5)] {
        let mut total: u64 = 0;
        let mut prev_end: u64 = 0;
        for rank in 0..w {
            let (s, e) = shard_bounds(size, w, rank);
            assert_eq!(s, prev_end, "ranges must tile with no gap or overlap");
            assert!(s <= e);
            total += e - s;
            prev_end = e;
        }
        assert_eq!(prev_end, size);
        assert_eq!(total, size);
    }
}

#[test]
fn empty_file_yields_empty_ranges() {
    for rank in 0..4 {
        assert_eq!(shard_bounds(0, 4, rank), (0, 0));
    }
}
