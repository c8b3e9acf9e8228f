use autohash::wrappers::U64Hash;
use autohash::AutoHashSet;

#[test]
fn set_from_duplicates() {
    let values = vec![U64Hash(1), U64Hash(2), U64Hash(2), U64Hash(3)];
    let s = AutoHashSet::from_values_hinted(Some(4), values);
    assert_eq!(s.len(), 3);
    assert_eq!(s.contains(&U64Hash(2)), true);
    assert_eq!(s.contains(&U64Hash(4)), false);
}

#[test]
fn set_insert_remove() {
    let mut s: AutoHashSet<U64Hash> = AutoHashSet::new();
    assert!(s.insert(U64Hash(5)));
    assert!(!s.insert(U64Hash(5)));
    assert_eq!(s.len(), 1);
    assert!(s.remove(&U64Hash(5)));
    assert!(!s.remove(&U64Hash(5)));
    assert!(s.is_empty());
}

#[test]
fn set_iter_and_drain() {
    let mut s: AutoHashSet<U64Hash> = AutoHashSet::with_capacity(8);
    for i in 0..20u64 {
        s.insert(U64Hash(i));
    }
    let mut seen: Vec<u64> = s.iter().iter().map(|v| v.0).collect();
    seen.sort();
    assert_eq!(seen, (0..20).collect::<Vec<u64>>());
    let mut drained: Vec<u64> = s.drain().iter().map(|v| v.0).collect();
    drained.sort();
    assert_eq!(drained, (0..20).collect::<Vec<u64>>());
    assert!(s.is_empty());
}

#[test]
fn set_refill_in_place() {
    let mut s: AutoHashSet<U64Hash> = AutoHashSet::new();
    for i in 0..10u64 {
        s.insert(U64Hash(i));
    }
    s.refill_hinted(Some(3), vec![U64Hash(100), U64Hash(200), U64Hash(100)]);
    assert_eq!(s.len(), 2);
    assert!(s.contains(&U64Hash(100)));
    assert!(s.contains(&U64Hash(200)));
    assert!(!s.contains(&U64Hash(5)));
}

#[test]
fn set_clear_reserve_shrink() {
    let mut s: AutoHashSet<U64Hash> = AutoHashSet::new();
    s.reserve(50);
    for i in 0..50u64 {
        s.insert(U64Hash(i));
    }
    s.clear();
    assert!(s.is_empty());
    assert_eq!(s.try_reserve(usize::MAX), Err(autohash::TryReserveError));
    assert_eq!(s.try_reserve(4), Ok(()));
    s.insert(U64Hash(9));
    s.shrink_to_fit();
    assert!(s.contains(&U64Hash(9)));
    assert_eq!(s.len(), 1);
}

#[test]
fn set_occupancy_load_factor() {
    let mut s: AutoHashSet<U64Hash> = AutoHashSet::new();
    for i in 0..300u64 {
        s.insert(U64Hash(i));
        let (occupied, tombstones, capacity) = s.occupancy();
        assert!(8 * (occupied + tombstones) <= 7 * capacity);
    }
    for i in 0..290u64 {
        s.remove(&U64Hash(i));
    }
    s.shrink_to_fit();
    let (occupied, tombstones, capacity) = s.occupancy();
    assert_eq!(occupied, 10);
    assert_eq!(tombstones, 0);
    assert!(capacity <= 8 + 2 * 10);
}
