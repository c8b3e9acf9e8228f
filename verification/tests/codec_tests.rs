use autohash::size_hint::cautious;
use autohash::wrappers::U64Hash;
use autohash::AutoHashMap;

#[test]
fn cautious_caps_hints() {
    assert_eq!(cautious(None), 0);
    assert_eq!(cautious(Some(0)), 0);
    assert_eq!(cautious(Some(10)), 10);
    assert_eq!(cautious(Some(4095)), 4095);
    assert_eq!(cautious(Some(4096)), 4096);
    assert_eq!(cautious(Some(100_000)), 4096);
    assert_eq!(cautious(Some(usize::MAX)), 4096);
}

#[test]
fn map_from_hinted_pairs() {
    let pairs = vec![(U64Hash(1), "a"), (U64Hash(2), "b"), (U64Hash(1), "c")];
    // A hostile hint cannot force a matching allocation.
    let m = AutoHashMap::from_pairs_hinted(Some(usize::MAX), pairs);
    assert_eq!(m.len(), 2);
    // The later pair for a repeated key wins, as in sequential insertion.
    assert_eq!(m.get(&U64Hash(1)), Some(&"c"));
    assert_eq!(m.get(&U64Hash(2)), Some(&"b"));
    let (_, _, capacity) = m.occupancy();
    assert!(capacity <= 2 * 4096);
}

#[test]
fn map_from_hinted_pairs_without_hint() {
    let pairs: Vec<(U64Hash, u64)> = (0..100).map(|i| (U64Hash(i), i)).collect();
    let m = AutoHashMap::from_pairs_hinted(None, pairs);
    assert_eq!(m.len(), 100);
    for i in 0..100u64 {
        assert_eq!(m.get(&U64Hash(i)), Some(&i));
    }
}
