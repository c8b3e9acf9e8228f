use std::sync::atomic::AtomicUsize;
use std::sync::atomic::Ordering;

use autohash::wrappers::U64Hash;
use autohash::AutoHashMap;

struct Dropable<'a> {
    counter: &'a AtomicUsize,
}

impl<'a> Dropable<'a> {
    fn new(counter: &'a AtomicUsize) -> Dropable<'a> {
        counter.fetch_add(1, Ordering::Relaxed);
        Dropable { counter }
    }
}

impl Drop for Dropable<'_> {
    fn drop(&mut self) {
        self.counter.fetch_sub(1, Ordering::Relaxed);
    }
}

impl Clone for Dropable<'_> {
    fn clone(&self) -> Self {
        Dropable::new(self.counter)
    }
}

/// Stands in for the original entry payload: one tag counted on the key
/// counter and one on the value counter.
struct PairDrop<'a> {
    key_tag: Dropable<'a>,
    value_tag: Dropable<'a>,
}

impl Clone for PairDrop<'_> {
    fn clone(&self) -> Self {
        PairDrop { key_tag: self.key_tag.clone(), value_tag: self.value_tag.clone() }
    }
}

#[test]
fn test_into_iter_drops() {
    let key = AtomicUsize::new(0);
    let value = AtomicUsize::new(0);

    let hm = {
        let mut hm = AutoHashMap::new();

        assert_eq!(key.load(Ordering::Relaxed), 0);
        assert_eq!(value.load(Ordering::Relaxed), 0);

        for i in 0..100 {
            let d = PairDrop { key_tag: Dropable::new(&key), value_tag: Dropable::new(&value) };
            hm.insert(U64Hash(i), d);
        }

        assert_eq!(key.load(Ordering::Relaxed), 100);
        assert_eq!(value.load(Ordering::Relaxed), 100);

        hm
    };

    // By the way, ensure that cloning doesn't screw up the dropping.
    drop(hm.clone());

    assert_eq!(key.load(Ordering::Relaxed), 100);
    assert_eq!(value.load(Ordering::Relaxed), 100);

    // Ensure that dropping the iterator does not leak anything.
    drop(hm.clone().into_par_iter());

    {
        assert_eq!(key.load(Ordering::Relaxed), 100);
        assert_eq!(value.load(Ordering::Relaxed), 100);

        // retain only half
        let _v: Vec<_> = hm
            .into_par_iter()
            .into_vec()
            .into_iter()
            .filter(|(key, _)| key.0 < 50)
            .collect();

        assert_eq!(key.load(Ordering::Relaxed), 50);
        assert_eq!(value.load(Ordering::Relaxed), 50);
    };

    assert_eq!(key.load(Ordering::Relaxed), 0);
    assert_eq!(value.load(Ordering::Relaxed), 0);
}

#[test]
fn test_drain_drops() {
    let key = AtomicUsize::new(0);
    let value = AtomicUsize::new(0);

    let mut hm = {
        let mut hm = AutoHashMap::new();

        assert_eq!(key.load(Ordering::Relaxed), 0);
        assert_eq!(value.load(Ordering::Relaxed), 0);

        for i in 0..100 {
            let d = PairDrop { key_tag: Dropable::new(&key), value_tag: Dropable::new(&value) };
            hm.insert(U64Hash(i), d);
        }

        assert_eq!(key.load(Ordering::Relaxed), 100);
        assert_eq!(value.load(Ordering::Relaxed), 100);

        hm
    };

    // By the way, ensure that cloning doesn't screw up the dropping.
    drop(hm.clone());

    assert_eq!(key.load(Ordering::Relaxed), 100);
    assert_eq!(value.load(Ordering::Relaxed), 100);

    // Ensure that dropping the drain batch does not leak anything.
    drop(hm.clone().par_drain());

    {
        assert_eq!(key.load(Ordering::Relaxed), 100);
        assert_eq!(value.load(Ordering::Relaxed), 100);

        // retain only half
        let _v: Vec<_> = hm.drain().into_iter().filter(|(key, _)| key.0 < 50).collect();
        assert!(hm.is_empty());

        assert_eq!(key.load(Ordering::Relaxed), 50);
        assert_eq!(value.load(Ordering::Relaxed), 50);
    };

    assert_eq!(key.load(Ordering::Relaxed), 0);
    assert_eq!(value.load(Ordering::Relaxed), 0);
}

#[test]
fn test_empty_iter() {
    let mut m: AutoHashMap<U64Hash, bool> = AutoHashMap::new();
    assert_eq!(m.par_drain().into_vec().len(), 0);
    assert_eq!(m.par_keys().into_vec().len(), 0);
    assert_eq!(m.par_values().into_vec().len(), 0);
    assert_eq!(m.into_par_entries().into_vec().len(), 0);
    assert_eq!(m.len(), 0);
    assert!(m.is_empty());
    assert_eq!(m.into_par_iter().into_vec().len(), 0);
}

#[test]
fn test_iterate() {
    let mut m = AutoHashMap::with_capacity(4);
    for i in 0..32 {
        assert!(m.insert(U64Hash(i), i * 2).is_none());
    }
    assert_eq!(m.len(), 32);

    let observed = AtomicUsize::new(0);

    for (k, v) in m.into_par_entries().into_vec() {
        assert_eq!(*v, k.0 * 2);
        observed.fetch_or(1 << k.0, Ordering::Relaxed);
    }
    assert_eq!(observed.into_inner(), 0xFFFF_FFFF);
}

#[test]
fn test_keys() {
    let vec = vec![(U64Hash(1), 'a'), (U64Hash(2), 'b'), (U64Hash(3), 'c')];
    let map = AutoHashMap::from_par_iter(vec);
    let keys: Vec<_> = map.par_keys().into_vec().into_iter().cloned().collect();
    assert_eq!(keys.len(), 3);
    assert!(keys.contains(&U64Hash(1)));
    assert!(keys.contains(&U64Hash(2)));
    assert!(keys.contains(&U64Hash(3)));
}

#[test]
fn test_values() {
    let vec = vec![(U64Hash(1), 'a'), (U64Hash(2), 'b'), (U64Hash(3), 'c')];
    let map = AutoHashMap::from_par_iter(vec);
    let values: Vec<_> = map.par_values().into_vec().into_iter().cloned().collect();
    assert_eq!(values.len(), 3);
    assert!(values.contains(&'a'));
    assert!(values.contains(&'b'));
    assert!(values.contains(&'c'));
}

#[test]
fn test_eq() {
    let mut m1 = AutoHashMap::new();
    m1.insert(U64Hash(1), 2);
    m1.insert(U64Hash(2), 3);
    m1.insert(U64Hash(3), 4);

    let mut m2 = AutoHashMap::new();
    m2.insert(U64Hash(1), 2);
    m2.insert(U64Hash(2), 3);

    assert!(!m1.par_eq(&m2));

    m2.insert(U64Hash(3), 4);

    assert!(m1.par_eq(&m2));
}

#[test]
fn test_eq_value_mismatch() {
    let mut m1 = AutoHashMap::new();
    m1.insert(U64Hash(1), 2);
    let mut m2 = AutoHashMap::new();
    m2.insert(U64Hash(1), 3);
    assert!(!m1.par_eq(&m2));
}

#[test]
fn test_from_iter() {
    let xs = [(1, 1), (2, 2), (3, 3), (4, 4), (5, 5), (6, 6)];

    let pairs: Vec<_> = xs.iter().map(|&(k, v)| (U64Hash(k), v)).collect();
    let map = AutoHashMap::from_par_iter(pairs);

    for &(k, v) in &xs {
        assert_eq!(map.get(&U64Hash(k)), Some(&v));
    }
}

#[test]
fn test_extend_ref() {
    let mut a = AutoHashMap::new();
    a.insert(U64Hash(1), "one");
    let mut b = AutoHashMap::new();
    b.insert(U64Hash(2), "two");
    b.insert(U64Hash(3), "three");

    let borrowed: Vec<_> = b.into_par_entries().into_vec().into_iter().map(|(k, v)| (*k, *v)).collect();
    a.par_extend(borrowed);

    assert_eq!(a.len(), 3);
    assert_eq!(a.get(&U64Hash(1)), Some(&"one"));
    assert_eq!(a.get(&U64Hash(2)), Some(&"two"));
    assert_eq!(a.get(&U64Hash(3)), Some(&"three"));
}

#[test]
fn par_extend_later_pair_wins() {
    let mut m = AutoHashMap::new();
    m.par_extend(vec![(U64Hash(1), 10), (U64Hash(2), 20), (U64Hash(1), 11)]);
    assert_eq!(m.len(), 2);
    assert_eq!(m.get(&U64Hash(1)), Some(&11));
    assert_eq!(m.get(&U64Hash(2)), Some(&20));
}

#[test]
fn test_values_mut() {
    let vec = vec![(U64Hash(1), 1), (U64Hash(2), 2), (U64Hash(3), 3)];
    let mut map = AutoHashMap::from_par_iter(vec);
    map.par_values_mut(&|value: u64| value * 2);
    let values: Vec<_> = map.par_values().into_vec().into_iter().cloned().collect();
    assert_eq!(values.len(), 3);
    assert!(values.contains(&2));
    assert!(values.contains(&4));
    assert!(values.contains(&6));
}
