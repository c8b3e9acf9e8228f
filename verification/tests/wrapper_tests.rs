use autohash::wrappers::AutoHashed;
use autohash::wrappers::MemoHashed;
use autohash::wrappers::RawHashed;
use autohash::wrappers::U64Hash;
use autohash::AutoHash;
use autohash::AutoHashMap;

#[test]
fn u64_hash_is_identity() {
    assert_eq!(U64Hash(0).get_hash(), 0);
    assert_eq!(U64Hash(123456789).get_hash(), 123456789);
    assert_eq!(U64Hash(u64::MAX).get_hash(), u64::MAX);
}

#[test]
fn strategies_agree() {
    // The recompute-every-time and compute-once strategies report the same
    // hash for the same value.
    for v in [0u64, 1, 42, 0xdead_beef, u64::MAX] {
        let ephemeral = AutoHashed::from(v);
        let memoized = MemoHashed::from(v);
        assert_eq!(ephemeral.get_hash(), memoized.get_hash());
        // And the hash is stable across repeated calls.
        assert_eq!(ephemeral.get_hash(), ephemeral.get_hash());
    }
    let e32 = AutoHashed::from(7u32);
    let m32 = MemoHashed::from(7u32);
    assert_eq!(e32.get_hash(), m32.get_hash());
}

#[test]
fn equal_values_equal_hashes() {
    let a = AutoHashed::from(99u64);
    let b = AutoHashed::from(99u64);
    assert_eq!(a.get_hash(), b.get_hash());
    let c = MemoHashed::from(99u64);
    let d = MemoHashed::from(99u64);
    assert_eq!(c.get_hash(), d.get_hash());
}

#[test]
fn raw_hash_is_caller_supplied() {
    let r = RawHashed::new(77, "payload");
    assert_eq!(r.get_hash(), 77);
    assert_eq!(*r.value(), "payload");
    let m = MemoHashed::from(3u64);
    assert_eq!(*m.value(), 3);
    let e = AutoHashed::from(4u64);
    assert_eq!(e.value, 4);
}

#[test]
fn wrapped_keys_in_a_map() {
    let mut m: AutoHashMap<AutoHashed<u64>, &str> = AutoHashMap::new();
    m.insert(AutoHashed::from(1), "a");
    m.insert(AutoHashed::from(2), "b");
    assert_eq!(m.get(&AutoHashed::from(1)), Some(&"a"));
    assert_eq!(m.get(&AutoHashed::from(2)), Some(&"b"));
    assert_eq!(m.get(&AutoHashed::from(3)), None);

    let mut mm: AutoHashMap<MemoHashed<u64>, &str> = AutoHashMap::new();
    mm.insert(MemoHashed::from(1), "a");
    assert_eq!(mm.get(&MemoHashed::from(1)), Some(&"a"));
    assert_eq!(mm.get(&MemoHashed::from(9)), None);
}

#[test]
fn forwarded_hash_through_pointers() {
    let k = U64Hash(31);
    assert_eq!((&k).get_hash(), 31);
    assert_eq!(Box::new(U64Hash(32)).get_hash(), 32);
    assert_eq!(std::rc::Rc::new(U64Hash(33)).get_hash(), 33);
    assert_eq!(std::sync::Arc::new(U64Hash(34)).get_hash(), 34);
}

#[test]
fn wrapper_clones_keep_hash() {
    let m = MemoHashed::from(17u64);
    let mc = m.clone();
    assert_eq!(m.get_hash(), mc.get_hash());
    let r = RawHashed::new(5, 17u64);
    let rc = r.clone();
    assert_eq!(r.get_hash(), rc.get_hash());
    let e = AutoHashed::from(17u64);
    let ec = e.clone();
    assert_eq!(e.get_hash(), ec.get_hash());
}
