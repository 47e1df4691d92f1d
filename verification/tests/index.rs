use smllr::index::PositionIndex;

#[test]
fn index_of_no_keys_finds_nothing() {
    let index = PositionIndex::new();
    assert!(index.lookup(0).is_empty());
    assert!(index.lookup(7).is_empty());
}

#[test]
fn index_lists_positions_in_rising_order() {
    let mut index = PositionIndex::new();
    for (at, key) in [5u64, 9, 5, 5, 0, 9, u64::MAX].iter().enumerate() {
        index.add(*key, at);
    }
    assert_eq!(index.lookup(5), &vec![0, 2, 3]);
    assert_eq!(index.lookup(9), &vec![1, 5]);
    assert_eq!(index.lookup(0), &vec![4]);
    assert_eq!(index.lookup(u64::MAX), &vec![6]);
    assert!(index.lookup(1).is_empty());
}
