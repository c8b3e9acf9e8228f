use autohash::wrappers::RawHashed;
use autohash::wrappers::U64Hash;
use autohash::AutoHashMap;

#[test]
fn insert_get_round_trip() {
    let mut m: AutoHashMap<U64Hash, u64> = AutoHashMap::new();
    for i in 0..64u64 {
        assert_eq!(m.insert(U64Hash(i), i * 3), None);
        assert_eq!(m.get(&U64Hash(i)), Some(&(i * 3)));
    }
    for i in 0..64u64 {
        assert_eq!(m.remove(&U64Hash(i)), Some(i * 3));
        assert_eq!(m.get(&U64Hash(i)), None);
    }
    assert!(m.is_empty());
}

#[test]
fn insert_overwrites_and_returns_prior() {
    let mut m: AutoHashMap<U64Hash, &str> = AutoHashMap::new();
    assert_eq!(m.insert(U64Hash(7), "first"), None);
    assert_eq!(m.insert(U64Hash(7), "second"), Some("first"));
    assert_eq!(m.get(&U64Hash(7)), Some(&"second"));
    assert_eq!(m.len(), 1);
}

#[test]
fn load_factor_after_every_insert() {
    let mut m: AutoHashMap<U64Hash, u64> = AutoHashMap::new();
    for i in 0..500u64 {
        m.insert(U64Hash(i), i);
        let (occupied, tombstones, capacity) = m.occupancy();
        assert!(capacity > 0);
        assert!(8 * (occupied + tombstones) <= 7 * capacity);
    }
    // Removals leave tombstones; the bound still holds after more inserts.
    for i in 0..250u64 {
        m.remove(&U64Hash(i));
    }
    for i in 500..800u64 {
        m.insert(U64Hash(i), i);
        let (occupied, tombstones, capacity) = m.occupancy();
        assert!(8 * (occupied + tombstones) <= 7 * capacity);
    }
}

#[test]
fn growth_preserves_contents() {
    let mut m: AutoHashMap<U64Hash, u64> = AutoHashMap::new();
    for i in 0..200u64 {
        m.insert(U64Hash(i), 1000 + i);
        // Everything inserted before any growth so far is still there.
        for j in 0..=i {
            assert_eq!(m.get(&U64Hash(j)), Some(&(1000 + j)));
        }
    }
}

#[test]
fn clone_fidelity() {
    let mut m: AutoHashMap<U64Hash, u64> = AutoHashMap::new();
    for i in 0..100u64 {
        m.insert(U64Hash(i), i * i);
    }
    let c = m.clone();
    let mut orig: Vec<(u64, u64)> = m.iter().iter().map(|p| (p.0 .0, *p.1)).collect();
    let mut copy: Vec<(u64, u64)> = c.iter().iter().map(|p| (p.0 .0, *p.1)).collect();
    orig.sort();
    copy.sort();
    assert_eq!(orig, copy);
    // Clone preserves the slot layout, so even the unsorted order agrees.
    let orig_in_order: Vec<u64> = m.keys().iter().map(|k| k.0).collect();
    let copy_in_order: Vec<u64> = c.keys().iter().map(|k| k.0).collect();
    assert_eq!(orig_in_order, copy_in_order);
}

#[test]
fn thousand_keys_scenario() {
    let mut m: AutoHashMap<U64Hash, u64> = AutoHashMap::new();
    for i in 1..=1000u64 {
        m.insert(U64Hash(i), i);
    }
    assert_eq!(m.len(), 1000);
    assert_eq!(m.get(&U64Hash(500)), Some(&500));
    assert_eq!(m.remove(&U64Hash(500)), Some(500));
    assert_eq!(m.len(), 999);
    assert_eq!(m.get(&U64Hash(500)), None);
    let c = m.clone();
    drop(m);
    assert_eq!(c.len(), 999);
    assert_eq!(c.get(&U64Hash(999)), Some(&999));
}

#[test]
fn tombstone_collision() {
    // Two distinct keys that share one hash, hence one probe start.
    let k1 = RawHashed::new(42, 1u64);
    let k2 = RawHashed::new(42, 2u64);
    let mut m: AutoHashMap<RawHashed<u64>, &str> = AutoHashMap::new();
    assert_eq!(m.insert(k1, "one"), None);
    assert_eq!(m.remove(&k1), Some("one"));
    assert_eq!(m.insert(k2, "two"), None);
    assert_eq!(m.get(&k2), Some(&"two"));
    assert_eq!(m.get(&k1), None);
}

#[test]
fn colliding_keys_coexist() {
    let mut m: AutoHashMap<RawHashed<u64>, u64> = AutoHashMap::new();
    for i in 0..20u64 {
        // All keys collide on hash 5; linear probing must still keep them apart.
        m.insert(RawHashed::new(5, i), i + 100);
    }
    assert_eq!(m.len(), 20);
    for i in 0..20u64 {
        assert_eq!(m.get(&RawHashed::new(5, i)), Some(&(i + 100)));
    }
}

#[test]
fn clear_and_reuse() {
    let mut m: AutoHashMap<U64Hash, u64> = AutoHashMap::new();
    for i in 0..50u64 {
        m.insert(U64Hash(i), i);
    }
    let (_, _, cap_before) = m.occupancy();
    m.clear();
    assert!(m.is_empty());
    let (occupied, tombstones, cap_after) = m.occupancy();
    assert_eq!((occupied, tombstones), (0, 0));
    assert_eq!(cap_before, cap_after);
    m.insert(U64Hash(1), 11);
    assert_eq!(m.get(&U64Hash(1)), Some(&11));
}

#[test]
fn reserve_and_try_reserve() {
    let mut m: AutoHashMap<U64Hash, u64> = AutoHashMap::new();
    m.reserve(100);
    let (occupied, tombstones, capacity) = m.occupancy();
    assert!(8 * (occupied + tombstones + 100) <= 7 * capacity);
    assert_eq!(m.try_reserve(10), Ok(()));
    assert_eq!(m.try_reserve(usize::MAX), Err(autohash::TryReserveError));
    assert!(m.is_empty());
}

#[test]
fn shrink_to_fit_reclaims_tombstones() {
    let mut m: AutoHashMap<U64Hash, u64> = AutoHashMap::new();
    for i in 0..200u64 {
        m.insert(U64Hash(i), i);
    }
    for i in 0..190u64 {
        m.remove(&U64Hash(i));
    }
    m.shrink_to_fit();
    let (occupied, tombstones, capacity) = m.occupancy();
    assert_eq!(occupied, 10);
    assert_eq!(tombstones, 0);
    assert!(capacity <= 8 + 2 * 10);
    for i in 190..200u64 {
        assert_eq!(m.get(&U64Hash(i)), Some(&i));
    }
}

#[test]
fn with_capacity_has_room() {
    let m: AutoHashMap<U64Hash, u64> = AutoHashMap::with_capacity(10);
    assert!(m.is_empty());
    let (occupied, tombstones, capacity) = m.occupancy();
    assert_eq!((occupied, tombstones), (0, 0));
    assert!(8 * 10 <= 7 * capacity);
}

#[test]
fn iter_keys_values_agree() {
    let mut m: AutoHashMap<U64Hash, u64> = AutoHashMap::new();
    for i in 0..10u64 {
        m.insert(U64Hash(i), i + 1);
    }
    let pairs = m.iter();
    let keys = m.keys();
    let values = m.values();
    assert_eq!(pairs.len(), 10);
    assert_eq!(keys.len(), 10);
    assert_eq!(values.len(), 10);
    for (t, p) in pairs.iter().enumerate() {
        assert_eq!(p.0, keys[t]);
        assert_eq!(p.1, values[t]);
        assert_eq!(*p.1, p.0 .0 + 1);
    }
}

#[test]
fn drain_empties_but_keeps_allocation() {
    let mut m: AutoHashMap<U64Hash, u64> = AutoHashMap::new();
    for i in 0..30u64 {
        m.insert(U64Hash(i), i);
    }
    let (_, _, cap_before) = m.occupancy();
    let mut drained = m.drain();
    assert!(m.is_empty());
    let (_, _, cap_after) = m.occupancy();
    assert_eq!(cap_before, cap_after);
    drained.sort_by_key(|p| p.0 .0);
    assert_eq!(drained.len(), 30);
    for (i, (k, v)) in drained.iter().enumerate() {
        assert_eq!(k.0, i as u64);
        assert_eq!(*v, i as u64);
    }
}

#[test]
fn get_mut_updates_in_place() {
    let mut m: AutoHashMap<U64Hash, u64> = AutoHashMap::new();
    m.insert(U64Hash(3), 30);
    {
        let v = m.get_mut(&U64Hash(3));
        assert_eq!(*v, 30);
        *v = 99;
    }
    assert_eq!(m.get(&U64Hash(3)), Some(&99));
    assert_eq!(m.len(), 1);
}

#[test]
fn get_or_insert_fetches_or_inserts() {
    let mut m: AutoHashMap<U64Hash, u64> = AutoHashMap::new();
    {
        let v = m.get_or_insert(U64Hash(1), 10);
        assert_eq!(*v, 10);
        *v += 5;
    }
    assert_eq!(m.get(&U64Hash(1)), Some(&15));
    {
        let v = m.get_or_insert(U64Hash(1), 777);
        assert_eq!(*v, 15);
    }
    assert_eq!(m.len(), 1);
    assert_eq!(m.get(&U64Hash(1)), Some(&15));
}

#[test]
fn empty_maps_compare_equal() {
    let a: AutoHashMap<U64Hash, u64> = AutoHashMap::new();
    let b: AutoHashMap<U64Hash, u64> = AutoHashMap::with_capacity(100);
    assert!(a.par_eq(&b));
    assert_eq!(a.get(&U64Hash(0)), None);
}

#[test]
fn extreme_hash_values() {
    let mut m: AutoHashMap<U64Hash, &str> = AutoHashMap::new();
    m.insert(U64Hash(0), "zero");
    m.insert(U64Hash(u64::MAX), "max");
    m.insert(U64Hash(u64::MAX - 1), "near");
    assert_eq!(m.get(&U64Hash(0)), Some(&"zero"));
    assert_eq!(m.get(&U64Hash(u64::MAX)), Some(&"max"));
    assert_eq!(m.get(&U64Hash(u64::MAX - 1)), Some(&"near"));
    assert_eq!(m.len(), 3);
}

#[test]
fn with_capacity_zero_is_unallocated() {
    let m: AutoHashMap<U64Hash, u64> = AutoHashMap::with_capacity(0);
    assert!(m.is_empty());
    let (occupied, tombstones, capacity) = m.occupancy();
    assert_eq!((occupied, tombstones, capacity), (0, 0, 0));
}
