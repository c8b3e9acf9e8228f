//! The open-addressing table engine.
//!
//! An array of slots, each `Empty`, `Tombstone` or `Occupied`, probed
//! linearly from the position derived from a key's hash. Lookups skip
//! tombstones and stop at the first empty slot; insertion reuses the first
//! tombstone on the probe path. Growth rehashes every occupied slot into a
//! fresh array, which is also the only point where tombstones are reclaimed.

use vstd::prelude::*;

use crate::AutoHash;
use crate::ExactEq;
use crate::MAX_KEYS;

verus! {

/// One bucket of the table.
pub(crate) enum Slot<K, V> {
    /// Never held an entry since the last rehash; terminates probe sequences.
    Empty,
    /// Held an entry that was removed; probe sequences continue past it.
    Tombstone,
    /// Holds a live entry together with the key's stored hash.
    Occupied { hash: u64, key: K, value: V },
}

/// Upper bound on the slot-array length; keeps `7 * capacity` and the probe
/// index arithmetic inside `usize`.
pub(crate) const CAP_LIMIT: usize = usize::MAX / 16;

pub(crate) open spec fn key_of<K, V>(s: Slot<K, V>) -> K
    recommends
        s is Occupied,
{
    match s {
        Slot::Occupied { key, .. } => key,
        _ => vstd::pervasive::arbitrary(),
    }
}

pub(crate) open spec fn val_of<K, V>(s: Slot<K, V>) -> V
    recommends
        s is Occupied,
{
    match s {
        Slot::Occupied { value, .. } => value,
        _ => vstd::pervasive::arbitrary(),
    }
}

pub(crate) open spec fn hash_of<K, V>(s: Slot<K, V>) -> u64
    recommends
        s is Occupied,
{
    match s {
        Slot::Occupied { hash, .. } => hash,
        _ => vstd::pervasive::arbitrary(),
    }
}

pub(crate) open spec fn occ_pred<K, V>() -> spec_fn(Slot<K, V>) -> bool {
    |s: Slot<K, V>| s is Occupied
}

pub(crate) open spec fn tomb_pred<K, V>() -> spec_fn(Slot<K, V>) -> bool {
    |s: Slot<K, V>| s is Tombstone
}

pub(crate) open spec fn empty_pred<K, V>() -> spec_fn(Slot<K, V>) -> bool {
    |s: Slot<K, V>| s is Empty
}

/// How many slots of `s` satisfy `f`.
pub(crate) open spec fn count<K, V>(s: Seq<Slot<K, V>>, f: spec_fn(Slot<K, V>) -> bool) -> nat
    decreases s.len(),
{
    if s.len() == 0 {
        0
    } else {
        count(s.drop_last(), f) + (if f(s.last()) {
            1nat
        } else {
            0nat
        })
    }
}

pub(crate) proof fn lemma_count_le_len<K, V>(s: Seq<Slot<K, V>>, f: spec_fn(Slot<K, V>) -> bool)
    ensures
        count(s, f) <= s.len(),
    decreases s.len(),
{
    if s.len() > 0 {
        lemma_count_le_len(s.drop_last(), f);
    }
}

pub(crate) proof fn lemma_count_update<K, V>(
    s: Seq<Slot<K, V>>,
    f: spec_fn(Slot<K, V>) -> bool,
    i: int,
    x: Slot<K, V>,
)
    requires
        0 <= i < s.len(),
    ensures
        count(s.update(i, x), f) == count(s, f) + (if f(x) {
            1int
        } else {
            0int
        }) - (if f(s[i]) {
            1int
        } else {
            0int
        }),
    decreases s.len(),
{
    let s2 = s.update(i, x);
    if i == s.len() - 1 {
        assert(s2.drop_last() =~= s.drop_last());
        assert(s2.last() == x);
    } else {
        assert(s2.drop_last() =~= s.drop_last().update(i, x));
        assert(s2.last() == s.last());
        lemma_count_update(s.drop_last(), f, i, x);
    }
}

pub(crate) proof fn lemma_count_pos<K, V>(
    s: Seq<Slot<K, V>>,
    f: spec_fn(Slot<K, V>) -> bool,
    i: int,
)
    requires
        0 <= i < s.len(),
        f(s[i]),
    ensures
        count(s, f) >= 1,
    decreases s.len(),
{
    if i == s.len() - 1 {
        assert(s.last() == s[i]);
    } else {
        assert(s.drop_last()[i] == s[i]);
        lemma_count_pos(s.drop_last(), f, i);
    }
}

pub(crate) proof fn lemma_count_exists<K, V>(s: Seq<Slot<K, V>>, f: spec_fn(Slot<K, V>) -> bool)
    requires
        count(s, f) > 0,
    ensures
        exists|i: int| 0 <= i < s.len() && f(#[trigger] s[i]),
    decreases s.len(),
{
    if f(s.last()) {
        assert(0 <= s.len() - 1 < s.len() && f(s[s.len() - 1]));
    } else {
        lemma_count_exists(s.drop_last(), f);
        let i = choose|i: int| 0 <= i < s.drop_last().len() && f(#[trigger] s.drop_last()[i]);
        assert(s.drop_last()[i] == s[i]);
    }
}

pub(crate) proof fn lemma_count_parts<K, V>(s: Seq<Slot<K, V>>)
    ensures
        count(s, occ_pred()) + count(s, tomb_pred()) + count(s, empty_pred()) == s.len(),
    decreases s.len(),
{
    if s.len() > 0 {
        lemma_count_parts(s.drop_last());
    }
}

pub(crate) proof fn lemma_count_take_step<K, V>(
    s: Seq<Slot<K, V>>,
    f: spec_fn(Slot<K, V>) -> bool,
    i: int,
)
    requires
        0 <= i < s.len(),
    ensures
        count(s.take(i + 1), f) == count(s.take(i), f) + (if f(s[i]) {
            1int
        } else {
            0int
        }),
{
    assert(s.take(i + 1).drop_last() =~= s.take(i));
    assert(s.take(i + 1).last() == s[i]);
}

pub(crate) proof fn lemma_count_take_all<K, V>(s: Seq<Slot<K, V>>, f: spec_fn(Slot<K, V>) -> bool)
    ensures
        count(s.take(s.len() as int), f) == count(s, f),
{
    assert(s.take(s.len() as int) =~= s);
}

pub(crate) proof fn lemma_count_take_le<K, V>(
    s: Seq<Slot<K, V>>,
    f: spec_fn(Slot<K, V>) -> bool,
    i: int,
)
    requires
        0 <= i <= s.len(),
    ensures
        count(s.take(i), f) <= count(s, f),
    decreases s.len() - i,
{
    if i == s.len() {
        lemma_count_take_all(s, f);
    } else {
        lemma_count_take_step(s, f, i);
        lemma_count_take_le(s, f, i + 1);
    }
}

pub(crate) proof fn lemma_count_zero<K, V>(s: Seq<Slot<K, V>>, f: spec_fn(Slot<K, V>) -> bool)
    requires
        forall|i: int| 0 <= i < s.len() ==> !f(#[trigger] s[i]),
    ensures
        count(s, f) == 0,
    decreases s.len(),
{
    if s.len() > 0 {
        let r = s.drop_last();
        assert(forall|i: int| 0 <= i < r.len() ==> r[i] == s[i]);
        lemma_count_zero(r, f);
        assert(!f(s[s.len() - 1]));
    }
}

// ---------------------------------------------------------------------------
// Probing
// ---------------------------------------------------------------------------
/// The first slot a key with hash `hash` probes, in a table of `cap` slots.
pub(crate) open spec fn slot_start(hash: u64, cap: int) -> int
    recommends
        cap > 0,
{
    (hash as int) % cap
}

/// The slot visited `j` steps into a probe sequence starting at `start`.
pub(crate) open spec fn probe_at(start: int, j: int, cap: int) -> int
    recommends
        0 <= start < cap,
        0 <= j < cap,
{
    if start + j < cap {
        start + j
    } else {
        start + j - cap
    }
}

/// How many probe steps from `start` reach slot `i`.
pub(crate) open spec fn probe_dist(start: int, i: int, cap: int) -> int
    recommends
        0 <= start < cap,
        0 <= i < cap,
{
    if i >= start {
        i - start
    } else {
        i - start + cap
    }
}

/// Every slot strictly before `i` on the probe path of `hash` is non-empty,
/// so a lookup probing for `hash` reaches slot `i`.
pub(crate) open spec fn reachable_at<K, V>(s: Seq<Slot<K, V>>, hash: u64, i: int) -> bool {
    let cap = s.len() as int;
    let start = slot_start(hash, cap);
    forall|j: int|
        0 <= j < probe_dist(start, i, cap) ==> !((#[trigger] s[probe_at(start, j, cap)]) is Empty)
}

/// Slot `i` holds key `k`.
pub(crate) open spec fn slot_for_key<K, V>(s: Seq<Slot<K, V>>, k: K, i: int) -> bool {
    0 <= i < s.len() && s[i] is Occupied && key_of(s[i]) == k
}

pub(crate) open spec fn has_key<K, V>(s: Seq<Slot<K, V>>, k: K) -> bool {
    exists|i: int| slot_for_key(s, k, i)
}

pub(crate) open spec fn index_of_key<K, V>(s: Seq<Slot<K, V>>, k: K) -> int {
    choose|i: int| slot_for_key(s, k, i)
}

/// The association the table represents: each occupied slot's key mapped to
/// its value.
pub(crate) open spec fn table_map<K, V>(s: Seq<Slot<K, V>>) -> Map<K, V> {
    Map::new(|k: K| has_key(s, k), |k: K| val_of(s[index_of_key(s, k)]))
}

/// No two occupied slots hold equal keys.
pub(crate) open spec fn keys_unique<K, V>(s: Seq<Slot<K, V>>) -> bool {
    forall|i: int, j: int|
        0 <= i < s.len() && 0 <= j < s.len() && i != j && (#[trigger] s[i]) is Occupied && (
        #[trigger] s[j]) is Occupied ==> key_of(s[i]) != key_of(s[j])
}

/// Every stored hash is the hash its key reports.
pub(crate) open spec fn hashes_ok<K: AutoHash, V>(s: Seq<Slot<K, V>>) -> bool {
    forall|i: int|
        0 <= i < s.len() && (#[trigger] s[i]) is Occupied ==> hash_of(s[i]) == key_of(
            s[i],
        ).hash_spec()
}

/// Every occupied slot can be reached by probing from its hash's start slot.
pub(crate) open spec fn paths_ok<K, V>(s: Seq<Slot<K, V>>) -> bool {
    forall|i: int|
        0 <= i < s.len() && (#[trigger] s[i]) is Occupied ==> reachable_at(s, hash_of(s[i]), i)
}

// ---------------------------------------------------------------------------
// View lemmas
// ---------------------------------------------------------------------------
pub(crate) proof fn lemma_map_of_slot<K, V>(s: Seq<Slot<K, V>>, i: int)
    requires
        keys_unique(s),
        0 <= i < s.len(),
        s[i] is Occupied,
    ensures
        table_map(s).contains_key(key_of(s[i])),
        table_map(s)[key_of(s[i])] == val_of(s[i]),
{
    let k = key_of(s[i]);
    assert(slot_for_key(s, k, i));
    let j = index_of_key(s, k);
    assert(slot_for_key(s, k, j));
}

pub(crate) proof fn lemma_map_absent<K, V>(s: Seq<Slot<K, V>>, k: K)
    requires
        !has_key(s, k),
    ensures
        !table_map(s).contains_key(k),
{
}

/// A sequence of slots sub-ranged from one without duplicate keys keeps its
/// keys unique.
pub(crate) proof fn lemma_unique_drop_last<K, V>(s: Seq<Slot<K, V>>)
    requires
        keys_unique(s),
        s.len() > 0,
    ensures
        keys_unique(s.drop_last()),
{
    let r = s.drop_last();
    assert forall|i: int, j: int|
        0 <= i < r.len() && 0 <= j < r.len() && i != j && (#[trigger] r[i]) is Occupied && (
        #[trigger] r[j]) is Occupied implies key_of(r[i]) != key_of(r[j]) by {
        assert(r[i] == s[i] && r[j] == s[j]);
    }
}

/// The view of a slot sequence, in terms of the view of all but its last
/// slot: an occupied last slot contributes exactly its own entry.
pub(crate) proof fn lemma_map_snoc<K, V>(s: Seq<Slot<K, V>>)
    requires
        keys_unique(s),
        s.len() > 0,
    ensures
        s.last() is Occupied ==> !has_key(s.drop_last(), key_of(s.last())) && table_map(s)
            == table_map(s.drop_last()).insert(key_of(s.last()), val_of(s.last())),
        !(s.last() is Occupied) ==> table_map(s) == table_map(s.drop_last()),
{
    let r = s.drop_last();
    lemma_unique_drop_last(s);
    let last = s.last();
    if last is Occupied {
        let k = key_of(last);
        assert(!has_key(r, k)) by {
            if has_key(r, k) {
                let i = choose|i: int| slot_for_key(r, k, i);
                assert(s[i] == r[i]);
                assert(s[s.len() - 1] == last);
            }
        }
        assert(table_map(s) =~= table_map(r).insert(k, val_of(last))) by {
                assert forall|k2: K| #[trigger]
                    table_map(s).contains_key(k2) implies table_map(r).insert(
                    k,
                    val_of(last),
                ).contains_key(k2) && table_map(s)[k2] == table_map(r).insert(k, val_of(last))[k2]
                by {
                    let i = index_of_key(s, k2);
                    assert(slot_for_key(s, k2, i));
                    if i == s.len() - 1 {
                        assert(k2 == k);
                    } else {
                        assert(r[i] == s[i]);
                        assert(slot_for_key(r, k2, i));
                        assert(k2 != k) by {
                            assert(s[s.len() - 1] is Occupied);
                        }
                        let j = index_of_key(r, k2);
                        assert(slot_for_key(r, k2, j));
                        assert(s[j] == r[j]);
                        assert(j == i);
                    }
                }
                assert forall|k2: K| #[trigger]
                    table_map(r).insert(k, val_of(last)).contains_key(k2) implies table_map(
                    s,
                ).contains_key(k2) by {
                    if k2 == k {
                        assert(slot_for_key(s, k2, s.len() - 1));
                    } else {
                        let i = index_of_key(r, k2);
                        assert(slot_for_key(r, k2, i));
                        assert(s[i] == r[i]);
                        assert(slot_for_key(s, k2, i));
                    }
                }
            }
        } else {
            assert(table_map(s) =~= table_map(r)) by {
                assert forall|k2: K| #[trigger] table_map(s).contains_key(k2) implies table_map(
                    r,
                ).contains_key(k2) && table_map(s)[k2] == table_map(r)[k2] by {
                    let i = index_of_key(s, k2);
                    assert(slot_for_key(s, k2, i));
                    assert(i != s.len() - 1);
                    assert(r[i] == s[i]);
                    assert(slot_for_key(r, k2, i));
                    let j = index_of_key(r, k2);
                    assert(slot_for_key(r, k2, j));
                    assert(s[j] == r[j]);
                    assert(j == i);
                }
                assert forall|k2: K| #[trigger] table_map(r).contains_key(k2) implies table_map(
                    s,
                ).contains_key(k2) by {
                    let i = index_of_key(r, k2);
                    assert(slot_for_key(r, k2, i));
                    assert(s[i] == r[i]);
                    assert(slot_for_key(s, k2, i));
                }
            }
    }
}

/// Cardinality: in a table without duplicate keys, the view has exactly one
/// entry per occupied slot.
pub(crate) proof fn lemma_map_len<K, V>(s: Seq<Slot<K, V>>)
    requires
        keys_unique(s),
    ensures
        table_map(s).dom().finite(),
        table_map(s).dom().len() == count(s, occ_pred()),
    decreases s.len(),
{
    if s.len() == 0 {
        assert(table_map(s) =~= Map::<K, V>::empty());
    } else {
        let r = s.drop_last();
        lemma_unique_drop_last(s);
        lemma_map_len(r);
        lemma_map_snoc(s);
        if s.last() is Occupied {
            assert(!table_map(r).contains_key(key_of(s.last())));
        }
    }
}

/// Writing an occupied slot over an empty or tombstone slot, with a key the
/// table does not hold, inserts exactly that pair into the view.
pub(crate) proof fn lemma_update_fresh<K, V>(s: Seq<Slot<K, V>>, i: int, h: u64, k: K, v: V)
    requires
        keys_unique(s),
        0 <= i < s.len(),
        !(s[i] is Occupied),
        !has_key(s, k),
    ensures
        table_map(s.update(i, Slot::Occupied { hash: h, key: k, value: v })) =~= table_map(
            s,
        ).insert(k, v),
        keys_unique(s.update(i, Slot::Occupied { hash: h, key: k, value: v })),
{
    let s2 = s.update(i, Slot::Occupied { hash: h, key: k, value: v });
    assert(keys_unique(s2)) by {
        assert forall|a: int, b: int|
            0 <= a < s2.len() && 0 <= b < s2.len() && a != b && (#[trigger] s2[a]) is Occupied && (
            #[trigger] s2[b]) is Occupied implies key_of(s2[a]) != key_of(s2[b]) by {
            if a != i && b != i {
                assert(s2[a] == s[a] && s2[b] == s[b]);
            } else if a == i {
                assert(s2[b] == s[b]);
                if key_of(s2[b]) == k {
                    assert(slot_for_key(s, k, b));
                }
            } else {
                assert(s2[a] == s[a]);
                if key_of(s2[a]) == k {
                    assert(slot_for_key(s, k, a));
                }
            }
        }
    }
    assert forall|k2: K| #[trigger] table_map(s2).contains_key(k2) implies table_map(s).insert(
        k,
        v,
    ).contains_key(k2) && table_map(s2)[k2] == table_map(s).insert(k, v)[k2] by {
        let a = index_of_key(s2, k2);
        assert(slot_for_key(s2, k2, a));
        if a == i {
            assert(k2 == k);
            assert(table_map(s2)[k2] == v);
        } else {
            assert(s2[a] == s[a]);
            assert(slot_for_key(s, k2, a));
            assert(k2 != k) by {
                if k2 == k {
                    assert(slot_for_key(s, k, a));
                }
            }
            lemma_map_of_slot(s, a);
        }
    }
    assert forall|k2: K| #[trigger]
        table_map(s).insert(k, v).contains_key(k2) implies table_map(s2).contains_key(k2) by {
        if k2 == k {
            assert(slot_for_key(s2, k2, i));
        } else {
            let a = index_of_key(s, k2);
            assert(slot_for_key(s, k2, a));
            assert(a != i);
            assert(s2[a] == s[a]);
            assert(slot_for_key(s2, k2, a));
        }
    }
}

/// Overwriting the value (and stored hash) of the slot that holds key `k`
/// updates exactly that key's entry in the view.
pub(crate) proof fn lemma_update_same_key<K, V>(s: Seq<Slot<K, V>>, i: int, h: u64, v: V)
    requires
        keys_unique(s),
        0 <= i < s.len(),
        s[i] is Occupied,
    ensures
        table_map(s.update(i, Slot::Occupied { hash: h, key: key_of(s[i]), value: v }))
            =~= table_map(s).insert(key_of(s[i]), v),
        keys_unique(s.update(i, Slot::Occupied { hash: h, key: key_of(s[i]), value: v })),
{
    let k = key_of(s[i]);
    let s2 = s.update(i, Slot::Occupied { hash: h, key: k, value: v });
    assert(keys_unique(s2)) by {
        assert forall|a: int, b: int|
            0 <= a < s2.len() && 0 <= b < s2.len() && a != b && (#[trigger] s2[a]) is Occupied && (
            #[trigger] s2[b]) is Occupied implies key_of(s2[a]) != key_of(s2[b]) by {
            if a != i && b != i {
                assert(s2[a] == s[a] && s2[b] == s[b]);
            } else if a == i {
                assert(s2[b] == s[b]);
            } else {
                assert(s2[a] == s[a]);
            }
        }
    }
    assert forall|k2: K| #[trigger] table_map(s2).contains_key(k2) implies table_map(s).insert(
        k,
        v,
    ).contains_key(k2) && table_map(s2)[k2] == table_map(s).insert(k, v)[k2] by {
        let a = index_of_key(s2, k2);
        assert(slot_for_key(s2, k2, a));
        if a == i {
            assert(k2 == k);
            assert(table_map(s2)[k2] == v);
        } else {
            assert(s2[a] == s[a]);
            assert(slot_for_key(s, k2, a));
            assert(k2 != k) by {
                if k2 == k {
                    assert(s[a] is Occupied && s[i] is Occupied);
                }
            }
            lemma_map_of_slot(s, a);
        }
    }
    assert forall|k2: K| #[trigger]
        table_map(s).insert(k, v).contains_key(k2) implies table_map(s2).contains_key(k2) by {
        if k2 == k {
            assert(slot_for_key(s2, k2, i));
        } else {
            let a = index_of_key(s, k2);
            assert(slot_for_key(s, k2, a));
            assert(a != i);
            assert(s2[a] == s[a]);
            assert(slot_for_key(s2, k2, a));
        }
    }
}

/// Turning the slot that holds key `k` into a tombstone removes exactly that
/// key's entry from the view.
pub(crate) proof fn lemma_update_tombstone<K, V>(s: Seq<Slot<K, V>>, i: int)
    requires
        keys_unique(s),
        0 <= i < s.len(),
        s[i] is Occupied,
    ensures
        table_map(s.update(i, Slot::Tombstone)) =~= table_map(s).remove(key_of(s[i])),
        keys_unique(s.update(i, Slot::Tombstone)),
{
    let k = key_of(s[i]);
    let s2 = s.update(i, Slot::Tombstone);
    assert(keys_unique(s2)) by {
        assert forall|a: int, b: int|
            0 <= a < s2.len() && 0 <= b < s2.len() && a != b && (#[trigger] s2[a]) is Occupied && (
            #[trigger] s2[b]) is Occupied implies key_of(s2[a]) != key_of(s2[b]) by {
            assert(a != i && b != i);
            assert(s2[a] == s[a] && s2[b] == s[b]);
        }
    }
    assert forall|k2: K| #[trigger] table_map(s2).contains_key(k2) implies table_map(s).remove(
        k,
    ).contains_key(k2) && table_map(s2)[k2] == table_map(s).remove(k)[k2] by {
        let a = index_of_key(s2, k2);
        assert(slot_for_key(s2, k2, a));
        assert(a != i);
        assert(s2[a] == s[a]);
        assert(slot_for_key(s, k2, a));
        assert(k2 != k) by {
            if k2 == k {
                assert(s[a] is Occupied && s[i] is Occupied);
            }
        }
        lemma_map_of_slot(s, a);
    }
    assert forall|k2: K| #[trigger]
        table_map(s).remove(k).contains_key(k2) implies table_map(s2).contains_key(k2) by {
        let a = index_of_key(s, k2);
        assert(slot_for_key(s, k2, a));
        assert(a != i) by {
            if a == i {
                assert(k2 == k);
            }
        }
        assert(s2[a] == s[a]);
        assert(slot_for_key(s2, k2, a));
    }
}

/// A point update that writes a non-empty slot keeps every other occupied
/// slot reachable; its stored hash also stays correct.
pub(crate) proof fn lemma_paths_update<K: AutoHash, V>(s: Seq<Slot<K, V>>, i: int, x: Slot<K, V>)
    requires
        paths_ok(s),
        hashes_ok(s),
        0 <= i < s.len(),
        !(x is Empty),
    ensures
        forall|m: int|
            0 <= m < s.len() && m != i && (#[trigger] s.update(i, x)[m]) is Occupied
                ==> reachable_at(s.update(i, x), hash_of(s.update(i, x)[m]), m) && hash_of(
                s.update(i, x)[m],
            ) == key_of(s.update(i, x)[m]).hash_spec(),
{
    let s2 = s.update(i, x);
    let cap = s.len() as int;
    assert forall|m: int|
        0 <= m < s.len() && m != i && (#[trigger] s2[m]) is Occupied implies reachable_at(
        s2,
        hash_of(s2[m]),
        m,
    ) && hash_of(s2[m]) == key_of(s2[m]).hash_spec() by {
        assert(s2[m] == s[m]);
        let h = hash_of(s[m]);
        let start = slot_start(h, cap);
        assert forall|j: int| 0 <= j < probe_dist(start, m, cap) implies !((#[trigger] s2[probe_at(
            start,
            j,
            cap,
        )]) is Empty) by {
            let p = probe_at(start, j, cap);
            assert(!(s[p] is Empty));
            if p == i {
                assert(s2[p] == x);
            } else {
                assert(s2[p] == s[p]);
            }
        }
    }
}

/// Writing a fresh occupied slot over a free one, at the end of its probe
/// path, preserves every part of the invariant and inserts the pair.
pub(crate) proof fn lemma_insert_slot_wf<K: AutoHash, V>(
    s: Seq<Slot<K, V>>,
    i: int,
    hash: u64,
    k: K,
    v: V,
)
    requires
        keys_unique(s),
        hashes_ok(s),
        paths_ok(s),
        0 <= i < s.len(),
        !(s[i] is Occupied),
        !has_key(s, k),
        hash == k.hash_spec(),
        reachable_at(s, hash, i),
    ensures
        keys_unique(s.update(i, Slot::Occupied { hash, key: k, value: v })),
        hashes_ok(s.update(i, Slot::Occupied { hash, key: k, value: v })),
        paths_ok(s.update(i, Slot::Occupied { hash, key: k, value: v })),
        table_map(s.update(i, Slot::Occupied { hash, key: k, value: v })) == table_map(s).insert(
            k,
            v,
        ),
        count(s.update(i, Slot::Occupied { hash, key: k, value: v }), occ_pred()) == count(
            s,
            occ_pred(),
        ) + 1,
        count(s.update(i, Slot::Occupied { hash, key: k, value: v }), tomb_pred()) == count(
            s,
            tomb_pred(),
        ) - (if s[i] is Tombstone {
            1int
        } else {
            0int
        }),
{
    let x = Slot::Occupied { hash, key: k, value: v };
    let s2 = s.update(i, x);
    let cap = s.len() as int;
    lemma_update_fresh(s, i, hash, k, v);
    lemma_count_update(s, occ_pred(), i, x);
    lemma_count_update(s, tomb_pred(), i, x);
    lemma_paths_update(s, i, x);
    assert(hashes_ok(s2)) by {
        assert forall|m: int|
            0 <= m < s2.len() && (#[trigger] s2[m]) is Occupied implies hash_of(s2[m]) == key_of(
            s2[m],
        ).hash_spec() by {
            if m != i {
                assert(s2[m] == s[m]);
            }
        }
    }
    assert(paths_ok(s2)) by {
        assert forall|m: int|
            0 <= m < s2.len() && (#[trigger] s2[m]) is Occupied implies reachable_at(
            s2,
            hash_of(s2[m]),
            m,
        ) by {
            if m == i {
                let start = slot_start(hash, cap);
                assert forall|j: int| 0 <= j < probe_dist(start, i, cap) implies !((
                #[trigger] s2[probe_at(start, j, cap)]) is Empty) by {
                    let p = probe_at(start, j, cap);
                    assert(p != i);
                    assert(s2[p] == s[p]);
                }
            }
        }
    }
}

/// Overwriting the slot that already holds a key with a new value for the
/// same key preserves the invariant and updates the pair.
pub(crate) proof fn lemma_overwrite_slot_wf<K: AutoHash, V>(
    s: Seq<Slot<K, V>>,
    i: int,
    hash: u64,
    v: V,
)
    requires
        keys_unique(s),
        hashes_ok(s),
        paths_ok(s),
        0 <= i < s.len(),
        s[i] is Occupied,
        hash == key_of(s[i]).hash_spec(),
    ensures
        keys_unique(s.update(i, Slot::Occupied { hash, key: key_of(s[i]), value: v })),
        hashes_ok(s.update(i, Slot::Occupied { hash, key: key_of(s[i]), value: v })),
        paths_ok(s.update(i, Slot::Occupied { hash, key: key_of(s[i]), value: v })),
        table_map(s.update(i, Slot::Occupied { hash, key: key_of(s[i]), value: v })) == table_map(
            s,
        ).insert(key_of(s[i]), v),
        count(s.update(i, Slot::Occupied { hash, key: key_of(s[i]), value: v }), occ_pred())
            == count(s, occ_pred()),
        count(s.update(i, Slot::Occupied { hash, key: key_of(s[i]), value: v }), tomb_pred())
            == count(s, tomb_pred()),
{
    let k = key_of(s[i]);
    let x = Slot::Occupied { hash, key: k, value: v };
    let s2 = s.update(i, x);
    let cap = s.len() as int;
    lemma_update_same_key(s, i, hash, v);
    lemma_count_update(s, occ_pred(), i, x);
    lemma_count_update(s, tomb_pred(), i, x);
    lemma_paths_update(s, i, x);
    assert(hashes_ok(s2)) by {
        assert forall|m: int|
            0 <= m < s2.len() && (#[trigger] s2[m]) is Occupied implies hash_of(s2[m]) == key_of(
            s2[m],
        ).hash_spec() by {
            if m != i {
                assert(s2[m] == s[m]);
            }
        }
    }
    assert(paths_ok(s2)) by {
        assert forall|m: int|
            0 <= m < s2.len() && (#[trigger] s2[m]) is Occupied implies reachable_at(
            s2,
            hash_of(s2[m]),
            m,
        ) by {
            if m == i {
                assert(hash_of(s[i]) == hash);
                assert(reachable_at(s, hash, i));
                let start = slot_start(hash, cap);
                assert forall|j: int| 0 <= j < probe_dist(start, i, cap) implies !((
                #[trigger] s2[probe_at(start, j, cap)]) is Empty) by {
                    let p = probe_at(start, j, cap);
                    assert(!(s[p] is Empty));
                    assert(p != i);
                    assert(s2[p] == s[p]);
                }
            }
        }
    }
}

/// Replacing an occupied slot by a tombstone preserves the invariant and
/// removes exactly that key's entry.
pub(crate) proof fn lemma_remove_slot_wf<K: AutoHash, V>(s: Seq<Slot<K, V>>, i: int)
    requires
        keys_unique(s),
        hashes_ok(s),
        paths_ok(s),
        0 <= i < s.len(),
        s[i] is Occupied,
    ensures
        keys_unique(s.update(i, Slot::Tombstone)),
        hashes_ok(s.update(i, Slot::Tombstone)),
        paths_ok(s.update(i, Slot::Tombstone)),
        table_map(s.update(i, Slot::Tombstone)) == table_map(s).remove(key_of(s[i])),
        count(s.update(i, Slot::Tombstone), occ_pred()) == count(s, occ_pred()) - 1,
        count(s.update(i, Slot::Tombstone), tomb_pred()) == count(s, tomb_pred()) + 1,
{
    let x = Slot::<K, V>::Tombstone;
    let s2 = s.update(i, x);
    lemma_update_tombstone(s, i);
    lemma_count_update(s, occ_pred(), i, x);
    lemma_count_update(s, tomb_pred(), i, x);
    lemma_paths_update(s, i, x);
    assert(hashes_ok(s2)) by {
        assert forall|m: int|
            0 <= m < s2.len() && (#[trigger] s2[m]) is Occupied implies hash_of(s2[m]) == key_of(
            s2[m],
        ).hash_spec() by {
            assert(m != i);
            assert(s2[m] == s[m]);
        }
    }
    assert(paths_ok(s2)) by {
        assert forall|m: int|
            0 <= m < s2.len() && (#[trigger] s2[m]) is Occupied implies reachable_at(
            s2,
            hash_of(s2[m]),
            m,
        ) by {
            assert(m != i);
        }
    }
}


/// Unique keys restricted to a prefix stay unique.
pub(crate) proof fn lemma_unique_take<K, V>(s: Seq<Slot<K, V>>, i: int)
    requires
        keys_unique(s),
        0 <= i <= s.len(),
    ensures
        keys_unique(s.take(i)),
{
    let p = s.take(i);
    assert forall|a: int, b: int|
        0 <= a < p.len() && 0 <= b < p.len() && a != b && (#[trigger] p[a]) is Occupied && (
        #[trigger] p[b]) is Occupied implies key_of(p[a]) != key_of(p[b]) by {
        assert(p[a] == s[a] && p[b] == s[b]);
    }
}

/// Two slot sequences whose slots agree pointwise under `f` have one count.
pub(crate) proof fn lemma_count_pointwise<K, V>(
    a: Seq<Slot<K, V>>,
    b: Seq<Slot<K, V>>,
    f: spec_fn(Slot<K, V>) -> bool,
)
    requires
        a.len() == b.len(),
        forall|i: int| 0 <= i < a.len() ==> f(#[trigger] a[i]) == f(#[trigger] b[i]),
    ensures
        count(a, f) == count(b, f),
    decreases a.len(),
{
    if a.len() > 0 {
        assert(forall|i: int|
            0 <= i < a.drop_last().len() ==> a.drop_last()[i] == a[i] && b.drop_last()[i] == b[i]);
        lemma_count_pointwise(a.drop_last(), b.drop_last(), f);
        assert(f(a[a.len() - 1]) == f(b[b.len() - 1]));
    }
}



/// The live entries of `s`, in slot order: the sequence a full scan yields.
pub(crate) open spec fn entries_of<K, V>(s: Seq<Slot<K, V>>) -> Seq<(K, V)>
    decreases s.len(),
{
    if s.len() == 0 {
        Seq::empty()
    } else {
        entries_of(s.drop_last()) + (if s.last() is Occupied {
            seq![(key_of(s.last()), val_of(s.last()))]
        } else {
            Seq::empty()
        })
    }
}

pub(crate) proof fn lemma_entries_take_step<K, V>(s: Seq<Slot<K, V>>, i: int)
    requires
        0 <= i < s.len(),
    ensures
        s[i] is Occupied ==> entries_of(s.take(i + 1)) == entries_of(s.take(i)).push(
            (key_of(s[i]), val_of(s[i])),
        ),
        !(s[i] is Occupied) ==> entries_of(s.take(i + 1)) == entries_of(s.take(i)),
{
    assert(s.take(i + 1).drop_last() =~= s.take(i));
    assert(s.take(i + 1).last() == s[i]);
    if s[i] is Occupied {
        assert(entries_of(s.take(i)) + seq![(key_of(s[i]), val_of(s[i]))] =~= entries_of(
            s.take(i),
        ).push((key_of(s[i]), val_of(s[i]))));
    } else {
        assert(entries_of(s.take(i)) + Seq::<(K, V)>::empty() =~= entries_of(s.take(i)));
    }
}

pub(crate) proof fn lemma_entries_take_all<K, V>(s: Seq<Slot<K, V>>)
    ensures
        entries_of(s.take(s.len() as int)) == entries_of(s),
{
    assert(s.take(s.len() as int) =~= s);
}

/// Two slot sequences that agree on statuses and keys, with values related
/// pairwise by cloning, have entry sequences related the same way.
pub(crate) proof fn lemma_entries_pointwise<K, V: Clone>(a: Seq<Slot<K, V>>, b: Seq<Slot<K, V>>)
    requires
        a.len() == b.len(),
        forall|i: int|
            0 <= i < a.len() ==> ((#[trigger] a[i]) is Occupied <==> (#[trigger] b[i]) is Occupied),
        forall|i: int|
            0 <= i < a.len() && (#[trigger] a[i]) is Occupied ==> key_of(b[i]) == key_of(a[i])
                && vstd::pervasive::cloned::<V>(val_of(a[i]), val_of(b[i])),
    ensures
        entries_of(b).len() == entries_of(a).len(),
        forall|t: int|
            0 <= t < entries_of(a).len() ==> (#[trigger] entries_of(b)[t]).0 == entries_of(a)[t].0
                && vstd::pervasive::cloned::<V>(entries_of(a)[t].1, entries_of(b)[t].1),
    decreases a.len(),
{
    if a.len() > 0 {
        let ra = a.drop_last();
        let rb = b.drop_last();
        assert(forall|i: int| 0 <= i < ra.len() ==> ra[i] == a[i] && rb[i] == b[i]);
        lemma_entries_pointwise(ra, rb);
        assert(a[a.len() - 1] == a.last() && b[b.len() - 1] == b.last());
        if a.last() is Occupied {
            assert(entries_of(a) =~= entries_of(ra).push((key_of(a.last()), val_of(a.last()))));
            assert(entries_of(b) =~= entries_of(rb).push((key_of(b.last()), val_of(b.last()))));
        } else {
            assert(entries_of(a) =~= entries_of(ra));
            assert(entries_of(b) =~= entries_of(rb));
        }
    }
}

/// Overwriting the value of an occupied slot — with any value at all — keeps
/// the invariant and updates only that key's entry. Universally quantified so
/// that it covers a value written later through a returned `&mut` borrow.
pub(crate) proof fn lemma_value_write_any<K: AutoHash, V>(s: Seq<Slot<K, V>>, i: int)
    requires
        keys_unique(s),
        hashes_ok(s),
        paths_ok(s),
        0 <= i < s.len(),
        s[i] is Occupied,
    ensures
        forall|v: V|
            #![trigger s.update(i, Slot::Occupied { hash: hash_of(s[i]), key: key_of(s[i]), value: v })]
            {
                let s2 = s.update(
                    i,
                    Slot::Occupied { hash: hash_of(s[i]), key: key_of(s[i]), value: v },
                );
                &&& keys_unique(s2)
                &&& hashes_ok(s2)
                &&& paths_ok(s2)
                &&& table_map(s2) == table_map(s).insert(key_of(s[i]), v)
                &&& count(s2, occ_pred()) == count(s, occ_pred())
                &&& count(s2, tomb_pred()) == count(s, tomb_pred())
            },
{
    assert forall|v: V|
        #![trigger s.update(i, Slot::Occupied { hash: hash_of(s[i]), key: key_of(s[i]), value: v })]
        {
            let s2 = s.update(
                i,
                Slot::Occupied { hash: hash_of(s[i]), key: key_of(s[i]), value: v },
            );
            &&& keys_unique(s2)
            &&& hashes_ok(s2)
            &&& paths_ok(s2)
            &&& table_map(s2) == table_map(s).insert(key_of(s[i]), v)
            &&& count(s2, occ_pred()) == count(s, occ_pred())
            &&& count(s2, tomb_pred()) == count(s, tomb_pred())
        } by {
        lemma_overwrite_slot_wf(s, i, hash_of(s[i]), v);
    }
}

// ---------------------------------------------------------------------------
// The table engine
// ---------------------------------------------------------------------------
/// The outcome of probing for a key.
pub(crate) enum FindRes {
    /// The key sits in this slot.
    Found(usize),
    /// The key is absent; this empty or tombstone slot is where an insertion
    /// of the key belongs.
    Free(usize),
}

pub(crate) struct Table<K, V> {
    pub(crate) slots: Vec<Slot<K, V>>,
    pub(crate) occupied: usize,
    pub(crate) tombstones: usize,
}

impl<K: AutoHash + ExactEq, V> Table<K, V> {
    pub(crate) open spec fn cap(&self) -> nat {
        self.slots@.len()
    }

    /// The engine's invariant: the counters match the slot array, the load
    /// factor stays at or below 7/8, keys are unique, stored hashes are the
    /// keys' own, and every occupied slot is reachable by probing.
    pub(crate) open spec fn wf(&self) -> bool {
        &&& self.occupied == count(self.slots@, occ_pred())
        &&& self.tombstones == count(self.slots@, tomb_pred())
        &&& self.slots@.len() <= CAP_LIMIT
        &&& (self.slots@.len() > 0 ==> 8 * (self.occupied + self.tombstones) <= 7
            * self.slots@.len())
        &&& keys_unique(self.slots@)
        &&& hashes_ok(self.slots@)
        &&& paths_ok(self.slots@)
    }

    pub(crate) open spec fn map_view(&self) -> Map<K, V> {
        table_map(self.slots@)
    }

    pub(crate) fn new() -> (r: Self)
        ensures
            r.wf(),
            r.map_view() =~= Map::<K, V>::empty(),
            r.cap() == 0,
    {
        let r = Table { slots: Vec::new(), occupied: 0, tombstones: 0 };
        proof {
            assert(!has_key(r.slots@, vstd::pervasive::arbitrary::<K>()));
            assert forall|k: K| !table_map(r.slots@).contains_key(k) by {
                if has_key(r.slots@, k) {
                    let i = choose|i: int| slot_for_key(r.slots@, k, i);
                }
            }
        }
        r
    }

    /// Probe for `key`, whose hash is `hash`, and report either the slot that
    /// holds it or the free slot an insertion of it should use.
    pub(crate) fn find(&self, hash: u64, key: &K) -> (r: FindRes)
        requires
            self.wf(),
            self.cap() > 0,
            self.occupied + self.tombstones < self.cap(),
            hash == key.hash_spec(),
        ensures
            match r {
                FindRes::Found(i) => {
                    &&& 0 <= i < self.cap()
                    &&& self.slots@[i as int] is Occupied
                    &&& key_of(self.slots@[i as int]) == *key
                },
                FindRes::Free(i) => {
                    &&& 0 <= i < self.cap()
                    &&& !(self.slots@[i as int] is Occupied)
                    &&& !has_key(self.slots@, *key)
                    &&& reachable_at(self.slots@, hash, i as int)
                },
            },
    {
        let cap = self.slots.len();
        let start = (hash % (cap as u64)) as usize;
        let ghost startg = start as int;
        let ghost s = self.slots@;
        assert(0 <= startg < cap as int);
        let mut i: usize = 0;
        let mut free_slot: usize = 0;
        let mut have_free: bool = false;
        let ghost mut free_step: int = 0;
        while i < cap
            invariant
                self.wf(),
                self.cap() == cap,
                s == self.slots@,
                0 < cap <= CAP_LIMIT,
                0 <= startg < cap as int,
                startg == start as int,
                startg == slot_start(hash, cap as int),
                hash == key.hash_spec(),
                0 <= i <= cap,
                forall|j: int|
                    0 <= j < i as int ==> !((#[trigger] s[probe_at(startg, j, cap as int)]) is Empty),
                forall|j: int|
                    0 <= j < i as int ==> !((#[trigger] s[probe_at(startg, j, cap as int)])
                        is Occupied && key_of(s[probe_at(startg, j, cap as int)]) == *key),
                have_free ==> 0 <= free_step < i as int && free_slot as int == probe_at(
                    startg,
                    free_step,
                    cap as int,
                ) && s[free_slot as int] is Tombstone,
            decreases cap - i,
        {
            let idx = if start + i < cap {
                start + i
            } else {
                start + i - cap
            };
            assert(idx as int == probe_at(startg, i as int, cap as int));
            match &self.slots[idx] {
                Slot::Empty => {
                    let r = if have_free {
                        free_slot
                    } else {
                        idx
                    };
                    proof {
                        assert(!has_key(s, *key)) by {
                            if has_key(s, *key) {
                                let m = choose|m: int| slot_for_key(s, *key, m);
                                let d = probe_dist(startg, m, cap as int);
                                assert(probe_at(startg, d, cap as int) == m);
                                assert(reachable_at(s, hash_of(s[m]), m));
                                assert(hash_of(s[m]) == key.hash_spec());
                                if d < i as int {
                                    assert(s[probe_at(startg, d, cap as int)] is Occupied
                                        && key_of(s[probe_at(startg, d, cap as int)]) == *key);
                                } else if d == i as int {
                                    assert(m == idx as int);
                                } else {
                                    assert(!(s[probe_at(startg, i as int, cap as int)] is Empty));
                                }
                            }
                        }
                        if have_free {
                            assert forall|j: int|
                                0 <= j < probe_dist(startg, r as int, cap as int) implies !((
                            #[trigger] s[probe_at(startg, j, cap as int)]) is Empty) by {
                                assert(probe_dist(startg, r as int, cap as int) == free_step);
                            }
                        } else {
                            assert(probe_dist(startg, r as int, cap as int) == i as int);
                        }
                    }
                    return FindRes::Free(r);
                },
                Slot::Tombstone => {
                    if !have_free {
                        have_free = true;
                        free_slot = idx;
                        proof {
                            free_step = i as int;
                        }
                    }
                },
                Slot::Occupied { hash: h, key: k2, .. } => {
                    if *h == hash && k2.exact_eq(key) {
                        proof {
                            assert(s[idx as int] is Occupied);
                            assert(key_of(s[idx as int]) == *key);
                        }
                        return FindRes::Found(idx);
                    }
                    proof {
                        assert(hash_of(s[idx as int]) == key_of(s[idx as int]).hash_spec());
                        if key_of(s[idx as int]) == *key {
                            assert(hash_of(s[idx as int]) == hash);
                        }
                    }
                },
            }
            i = i + 1;
        }
        // Impossible: the load-factor invariant guarantees an empty slot, and
        // a full probe cycle visits every slot.
        proof {
            lemma_count_parts(s);
            assert(count(s, empty_pred()) > 0);
            lemma_count_exists(s, empty_pred());
            let e = choose|e: int| 0 <= e < s.len() && empty_pred::<K, V>()(s[e]);
            let d = probe_dist(startg, e, cap as int);
            assert(probe_at(startg, d, cap as int) == e);
            assert(!(s[e] is Empty));
        }
        vstd::pervasive::unreached()
    }

    /// Look the key up and borrow its value.
    pub(crate) fn get(&self, key: &K) -> (r: Option<&V>)
        requires
            self.wf(),
        ensures
            match r {
                Some(v) => self.map_view().contains_key(*key) && *v == self.map_view()[*key],
                None => !self.map_view().contains_key(*key),
            },
    {
        if self.slots.len() == 0 {
            proof {
                lemma_map_absent(self.slots@, *key);
            }
            return None;
        }
        let hash = key.get_hash();
        match self.find(hash, key) {
            FindRes::Found(i) => {
                proof {
                    lemma_map_of_slot(self.slots@, i as int);
                }
                match &self.slots[i] {
                    Slot::Occupied { value, .. } => Some(value),
                    _ => {
                        proof {
                            assert(false);
                        }
                        vstd::pervasive::unreached()
                    },
                }
            },
            FindRes::Free(_) => {
                proof {
                    lemma_map_absent(self.slots@, *key);
                }
                None
            },
        }
    }

    /// Rehash every occupied slot into a fresh array of `new_cap` slots.
    /// This discards all tombstones; it is the only place they are reclaimed.
    pub(crate) fn rehash_to(&mut self, new_cap: usize)
        requires
            old(self).wf(),
            8 * old(self).occupied <= 7 * new_cap,
            8 <= new_cap <= CAP_LIMIT,
        ensures
            final(self).wf(),
            final(self).map_view() == old(self).map_view(),
            final(self).cap() == new_cap,
            final(self).occupied == old(self).occupied,
            final(self).tombstones == 0,
    {
        let mut old_slots: Vec<Slot<K, V>> = Vec::new();
        let mut j: usize = 0;
        while j < new_cap
            invariant
                old_slots@.len() == j as int,
                0 <= j <= new_cap,
                forall|t: int| 0 <= t < j as int ==> (#[trigger] old_slots@[t]) is Empty,
            decreases new_cap - j,
        {
            old_slots.push(Slot::Empty);
            j = j + 1;
        }
        core::mem::swap(&mut self.slots, &mut old_slots);
        // `self.slots` is now the fresh empty array; `old_slots` holds the
        // previous entries, which are moved over one by one.
        let ghost orig = old_slots@;
        let ghost prev = *old(self);
        self.occupied = 0;
        self.tombstones = 0;
        proof {
            lemma_count_zero(self.slots@, occ_pred());
            lemma_count_zero(self.slots@, tomb_pred());
            assert forall|k: K| !table_map(self.slots@).contains_key(k) by {
                if has_key(self.slots@, k) {
                    let i = choose|i: int| slot_for_key(self.slots@, k, i);
                }
            }
            assert(table_map(self.slots@) =~= Map::<K, V>::empty());
            assert(table_map(orig.take(0)) =~= Map::<K, V>::empty());
            lemma_count_take_all(orig, occ_pred());
        }
        let n = old_slots.len();
        let mut i: usize = 0;
        while i < n
            invariant
                self.wf(),
                self.cap() == new_cap,
                self.tombstones == 0,
                8 <= new_cap <= CAP_LIMIT,
                old_slots@.len() == n as int,
                n as int == orig.len(),
                0 <= i <= n,
                forall|t: int| i as int <= t < n as int ==> old_slots@[t] == orig[t],
                keys_unique(orig),
                hashes_ok(orig),
                8 * count(orig, occ_pred()) <= 7 * new_cap,
                self.occupied == count(orig.take(i as int), occ_pred()),
                self.map_view() == table_map(orig.take(i as int)),
            decreases n - i,
        {
            let mut cur = Slot::Empty;
            core::mem::swap(&mut cur, &mut old_slots[i]);
            proof {
                assert(cur == orig[i as int]);
                lemma_count_take_step(orig, occ_pred(), i as int);
                lemma_count_take_le(orig, occ_pred(), i as int + 1);
                assert(orig.take(i as int + 1).drop_last() =~= orig.take(i as int));
                assert(keys_unique(orig.take(i as int + 1))) by {
                    let p = orig.take(i as int + 1);
                    assert forall|a: int, b: int|
                        0 <= a < p.len() && 0 <= b < p.len() && a != b && (#[trigger] p[a])
                            is Occupied && (#[trigger] p[b]) is Occupied implies key_of(p[a])
                        != key_of(p[b]) by {
                        assert(p[a] == orig[a] && p[b] == orig[b]);
                    }
                }
                lemma_map_snoc(orig.take(i as int + 1));
            }
            match cur {
                Slot::Occupied { hash, key, value } => {
                    proof {
                        assert(hash == key.hash_spec()) by {
                            assert(orig[i as int] is Occupied);
                        }
                        assert(!has_key(self.slots@, key)) by {
                            if has_key(self.slots@, key) {
                                let a = choose|a: int| slot_for_key(self.slots@, key, a);
                                lemma_map_of_slot(self.slots@, a);
                                assert(table_map(orig.take(i as int)).contains_key(key));
                                let b = index_of_key(orig.take(i as int), key);
                                assert(slot_for_key(orig.take(i as int), key, b));
                                assert(orig[b] == orig.take(i as int)[b]);
                                assert(key_of(orig[b]) == key_of(orig[i as int]));
                            }
                        }
                    }
                    self.insert_fresh(hash, key, value);
                },
                _ => {
                    proof {
                        assert(table_map(orig.take(i as int + 1)) == table_map(
                            orig.take(i as int),
                        ));
                    }
                },
            }
            i = i + 1;
        }
        proof {
            assert(orig.take(n as int) =~= orig);
            assert(table_map(orig) == prev.map_view());
            lemma_count_take_all(orig, occ_pred());
        }
    }

    /// Place a key the table does not hold. Used by rehashing, where the
    /// target table has no tombstones and enough room.
    fn insert_fresh(&mut self, hash: u64, key: K, value: V)
        requires
            old(self).wf(),
            old(self).tombstones == 0,
            8 * (old(self).occupied + 1) <= 7 * old(self).cap(),
            !has_key(old(self).slots@, key),
            hash == key.hash_spec(),
        ensures
            final(self).wf(),
            final(self).map_view() == old(self).map_view().insert(key, value),
            final(self).cap() == old(self).cap(),
            final(self).occupied == old(self).occupied + 1,
            final(self).tombstones == 0,
    {
        let ghost s = self.slots@;
        match self.find(hash, &key) {
            FindRes::Found(i) => {
                proof {
                    assert(slot_for_key(s, key, i as int));
                    assert(false);
                }
                vstd::pervasive::unreached()
            },
            FindRes::Free(i) => {
                proof {
                    assert(!(s[i as int] is Tombstone)) by {
                        if s[i as int] is Tombstone {
                            lemma_count_pos(s, tomb_pred(), i as int);
                        }
                    }
                    lemma_insert_slot_wf(s, i as int, hash, key, value);
                }
                self.slots[i] = Slot::Occupied { hash, key, value };
                self.occupied = self.occupied + 1;
            },
        }
    }

    /// Make sure one more entry fits under the load-factor bound, growing
    /// (and reclaiming tombstones) if it would not.
    fn ensure_room(&mut self)
        requires
            old(self).wf(),
            old(self).occupied < MAX_KEYS,
        ensures
            final(self).wf(),
            final(self).map_view() == old(self).map_view(),
            final(self).cap() > 0,
            8 * (final(self).occupied + final(self).tombstones + 1) <= 7 * final(self).cap(),
            final(self).occupied == old(self).occupied,
    {
        let cap = self.slots.len();
        let used = self.occupied + self.tombstones;
        if cap == 0 || 8 * (used + 1) > 7 * cap {
            let target = if self.occupied + 1 >= 4 {
                2 * (self.occupied + 1)
            } else {
                8
            };
            self.rehash_to(target);
        }
    }

    /// Insert a pair, returning the value the key previously mapped to.
    pub(crate) fn insert(&mut self, key: K, value: V) -> (r: Option<V>)
        requires
            old(self).wf(),
            old(self).map_view().dom().len() < MAX_KEYS,
        ensures
            final(self).wf(),
            final(self).map_view() == old(self).map_view().insert(key, value),
            r == if old(self).map_view().contains_key(key) {
                Some(old(self).map_view()[key])
            } else {
                None::<V>
            },
    {
        proof {
            lemma_map_len(self.slots@);
        }
        let hash = key.get_hash();
        self.ensure_room();
        let ghost s = self.slots@;
        match self.find(hash, &key) {
            FindRes::Found(i) => {
                proof {
                    lemma_map_of_slot(s, i as int);
                    lemma_overwrite_slot_wf(s, i as int, hash, value);
                }
                let mut cur = Slot::Occupied { hash, key, value };
                core::mem::swap(&mut cur, &mut self.slots[i]);
                match cur {
                    Slot::Occupied { value: prior, .. } => Some(prior),
                    _ => {
                        proof {
                            assert(false);
                        }
                        vstd::pervasive::unreached()
                    },
                }
            },
            FindRes::Free(i) => {
                proof {
                    lemma_map_absent(s, key);
                    lemma_insert_slot_wf(s, i as int, hash, key, value);
                }
                let was_tomb = match &self.slots[i] {
                    Slot::Tombstone => true,
                    _ => false,
                };
                self.slots[i] = Slot::Occupied { hash, key, value };
                if was_tomb {
                    self.tombstones = self.tombstones - 1;
                    proof {
                        lemma_count_pos(s, tomb_pred(), i as int);
                    }
                }
                self.occupied = self.occupied + 1;
                None
            },
        }
    }

    /// Remove a key, returning the value it mapped to.
    pub(crate) fn remove(&mut self, key: &K) -> (r: Option<V>)
        requires
            old(self).wf(),
        ensures
            final(self).wf(),
            final(self).map_view() == old(self).map_view().remove(*key),
            r == if old(self).map_view().contains_key(*key) {
                Some(old(self).map_view()[*key])
            } else {
                None::<V>
            },
    {
        if self.slots.len() == 0 {
            proof {
                lemma_map_absent(self.slots@, *key);
                assert(self.map_view().remove(*key) =~= self.map_view());
            }
            return None;
        }
        let hash = key.get_hash();
        let ghost s = self.slots@;
        match self.find(hash, key) {
            FindRes::Found(i) => {
                proof {
                    lemma_map_of_slot(s, i as int);
                    lemma_remove_slot_wf(s, i as int);
                    lemma_count_pos(s, occ_pred(), i as int);
                    lemma_count_le_len(s, tomb_pred());
                    lemma_count_parts(s);
                }
                let mut cur = Slot::Tombstone;
                core::mem::swap(&mut cur, &mut self.slots[i]);
                self.occupied = self.occupied - 1;
                self.tombstones = self.tombstones + 1;
                match cur {
                    Slot::Occupied { value: prior, .. } => Some(prior),
                    _ => {
                        proof {
                            assert(false);
                        }
                        vstd::pervasive::unreached()
                    },
                }
            },
            FindRes::Free(_) => {
                proof {
                    lemma_map_absent(s, *key);
                    assert(self.map_view().remove(*key) =~= self.map_view());
                }
                None
            },
        }
    }

    /// Reset every slot to empty, keeping the slot array's size.
    pub(crate) fn clear(&mut self)
        requires
            old(self).wf(),
        ensures
            final(self).wf(),
            final(self).map_view() == Map::<K, V>::empty(),
            final(self).cap() == old(self).cap(),
            final(self).occupied == 0,
            final(self).tombstones == 0,
    {
        let n = self.slots.len();
        let mut i: usize = 0;
        while i < n
            invariant
                self.slots@.len() == n as int,
                0 <= i <= n,
                forall|t: int| 0 <= t < i as int ==> (#[trigger] self.slots@[t]) is Empty,
            decreases n - i,
        {
            self.slots[i] = Slot::Empty;
            i = i + 1;
        }
        self.occupied = 0;
        self.tombstones = 0;
        proof {
            lemma_count_zero(self.slots@, occ_pred());
            lemma_count_zero(self.slots@, tomb_pred());
            assert forall|k: K| !table_map(self.slots@).contains_key(k) by {
                if has_key(self.slots@, k) {
                    let a = choose|a: int| slot_for_key(self.slots@, k, a);
                }
            }
            assert(table_map(self.slots@) =~= Map::<K, V>::empty());
        }
    }

    /// Make room for `additional` more entries without further growth.
    pub(crate) fn reserve_cap(&mut self, additional: usize)
        requires
            old(self).wf(),
            old(self).occupied + additional <= MAX_KEYS,
        ensures
            final(self).wf(),
            final(self).map_view() == old(self).map_view(),
            final(self).occupied == old(self).occupied,
            8 * (final(self).occupied + final(self).tombstones + additional) <= 7 * final(self).cap()
                || additional == 0,
    {
        let cap = self.slots.len();
        let needed = self.occupied + self.tombstones;
        if additional == 0 {
            return ;
        }
        if cap == 0 || 8 * (needed + additional) > 7 * cap {
            let goal = self.occupied + additional;
            let target = if goal >= 4 {
                2 * goal
            } else {
                8
            };
            self.rehash_to(target);
        }
    }


    /// Make sure `key` has an entry, inserting `value` if it has none, and
    /// report the slot that holds it.
    pub(crate) fn place_entry(&mut self, key: K, value: V) -> (i: usize)
        requires
            old(self).wf(),
            old(self).map_view().dom().len() < MAX_KEYS,
        ensures
            final(self).wf(),
            i < final(self).cap(),
            final(self).slots@[i as int] is Occupied,
            key_of(final(self).slots@[i as int]) == key,
            val_of(final(self).slots@[i as int]) == if old(self).map_view().contains_key(key) {
                old(self).map_view()[key]
            } else {
                value
            },
            final(self).map_view() == old(self).map_view().insert(
                key,
                val_of(final(self).slots@[i as int]),
            ),
    {
        proof {
            lemma_map_len(self.slots@);
        }
        let hash = key.get_hash();
        self.ensure_room();
        let ghost s = self.slots@;
        match self.find(hash, &key) {
            FindRes::Found(i) => {
                proof {
                    lemma_map_of_slot(s, i as int);
                    assert(self.map_view() =~= self.map_view().insert(key, val_of(s[i as int])));
                }
                i
            },
            FindRes::Free(i) => {
                proof {
                    lemma_map_absent(s, key);
                    lemma_insert_slot_wf(s, i as int, hash, key, value);
                }
                let was_tomb = match &self.slots[i] {
                    Slot::Tombstone => true,
                    _ => false,
                };
                self.slots[i] = Slot::Occupied { hash, key, value };
                if was_tomb {
                    self.tombstones = self.tombstones - 1;
                    proof {
                        lemma_count_pos(s, tomb_pred(), i as int);
                    }
                }
                self.occupied = self.occupied + 1;
                i
            },
        }
    }

    /// Borrow the value of occupied slot `i`, mutably. Any value the caller
    /// writes through the borrow becomes that slot's key's entry; the table's
    /// structure cannot be changed through it.
    pub(crate) fn slot_value_mut(&mut self, i: usize) -> (r: &mut V)
        requires
            old(self).wf(),
            i < old(self).cap(),
            old(self).slots@[i as int] is Occupied,
        ensures
            *r == old(self).map_view()[key_of(old(self).slots@[i as int])],
            *r == val_of(old(self).slots@[i as int]),
            final(self).wf(),
            final(self).map_view() == old(self).map_view().insert(
                key_of(old(self).slots@[i as int]),
                *final(r),
            ),
        no_unwind
    {
        proof {
            lemma_map_of_slot(self.slots@, i as int);
            lemma_value_write_any(self.slots@, i as int);
        }
        match &mut self.slots[i] {
            Slot::Occupied { value, .. } => value,
            _ => {
                proof {
                    assert(false);
                }
                vstd::pervasive::unreached()
            },
        }
    }

    /// Borrow every live pair, in slot order.
    pub(crate) fn pairs<'a>(&'a self) -> (r: Vec<(&'a K, &'a V)>)
        requires
            self.wf(),
        ensures
            r@.len() == entries_of(self.slots@).len(),
            forall|t: int|
                0 <= t < r@.len() ==> (*(#[trigger] r@[t]).0, *r@[t].1) == entries_of(
                    self.slots@,
                )[t],
            r@.len() == self.map_view().dom().len(),
            forall|t: int|
                0 <= t < r@.len() ==> self.map_view().contains_key(*r@[t].0)
                    && self.map_view()[*r@[t].0] == *r@[t].1,
            forall|k: K|
                self.map_view().contains_key(k) ==> exists|t: int|
                    0 <= t < r@.len() && *(#[trigger] r@[t]).0 == k,
            forall|t1: int, t2: int| 0 <= t1 < t2 < r@.len() ==> *r@[t1].0 != *r@[t2].0,
    {
        let ghost s = self.slots@;
        let n = self.slots.len();
        let mut out: Vec<(&K, &V)> = Vec::new();
        let mut i: usize = 0;
        while i < n
            invariant
                self.wf(),
                s == self.slots@,
                n as int == s.len(),
                0 <= i <= n,
                out@.len() == count(s.take(i as int), occ_pred()),
                out@.len() == entries_of(s.take(i as int)).len(),
                forall|t: int|
                    0 <= t < out@.len() ==> (*(#[trigger] out@[t]).0, *out@[t].1) == entries_of(
                        s.take(i as int),
                    )[t],
                forall|t: int|
                    0 <= t < out@.len() ==> table_map(s).contains_key(*(#[trigger] out@[t]).0)
                        && table_map(s)[*out@[t].0] == *out@[t].1,
                forall|k: K|
                    table_map(s.take(i as int)).contains_key(k) ==> exists|t: int|
                        0 <= t < out@.len() && *(#[trigger] out@[t]).0 == k,
                forall|t: int|
                    0 <= t < out@.len() ==> table_map(s.take(i as int)).contains_key(
                        *(#[trigger] out@[t]).0,
                    ),
                forall|t1: int, t2: int| 0 <= t1 < t2 < out@.len() ==> *out@[t1].0 != *out@[t2].0,
            decreases n - i,
        {
            proof {
                lemma_count_take_step(s, occ_pred(), i as int);
                lemma_entries_take_step(s, i as int);
                lemma_unique_take(s, i as int + 1);
                assert(s.take(i as int + 1).drop_last() =~= s.take(i as int));
                lemma_map_snoc(s.take(i as int + 1));
                assert(s.take(i as int + 1).last() == s[i as int]);
            }
            match &self.slots[i] {
                Slot::Occupied { key, value, .. } => {
                    proof {
                        lemma_map_of_slot(s, i as int);
                    }
                    let ghost out0 = out@;
                    out.push((key, value));
                    proof {
                        assert forall|k: K| #[trigger]
                            table_map(s.take(i as int + 1)).contains_key(k) implies exists|t: int|
                            0 <= t < out@.len() && *(#[trigger] out@[t]).0 == k by {
                            if k == key_of(s[i as int]) {
                                assert(*out@[out@.len() - 1].0 == k);
                            } else {
                                assert(table_map(s.take(i as int)).contains_key(k));
                                let t = choose|t: int|
                                    0 <= t < out0.len() && *(#[trigger] out0[t]).0 == k;
                                assert(out@[t] == out0[t]);
                            }
                        }
                    }
                },
                _ => {},
            }
            i = i + 1;
        }
        proof {
            assert(s.take(n as int) =~= s);
            lemma_map_len(s);
        }
        out
    }

    /// Move every live pair out, in slot order, leaving the table empty but
    /// keeping its slot array for reuse.
    pub(crate) fn drain(&mut self) -> (r: Vec<(K, V)>)
        requires
            old(self).wf(),
        ensures
            final(self).wf(),
            final(self).map_view() == Map::<K, V>::empty(),
            final(self).cap() == old(self).cap(),
            r@ == entries_of(old(self).slots@),
            r@.len() == old(self).map_view().dom().len(),
            forall|t: int|
                0 <= t < r@.len() ==> old(self).map_view().contains_key(r@[t].0)
                    && old(self).map_view()[r@[t].0] == r@[t].1,
            forall|k: K|
                old(self).map_view().contains_key(k) ==> exists|t: int|
                    0 <= t < r@.len() && (#[trigger] r@[t]).0 == k,
            forall|t1: int, t2: int| 0 <= t1 < t2 < r@.len() ==> r@[t1].0 != r@[t2].0,
    {
        let ghost s = old(self).slots@;
        let n = self.slots.len();
        let mut out: Vec<(K, V)> = Vec::new();
        let mut i: usize = 0;
        while i < n
            invariant
                n as int == s.len(),
                self.slots@.len() == s.len(),
                0 <= i <= n,
                keys_unique(s),
                forall|t: int| 0 <= t < i as int ==> (#[trigger] self.slots@[t]) is Empty,
                forall|t: int| i as int <= t < n as int ==> self.slots@[t] == s[t],
                out@.len() == count(s.take(i as int), occ_pred()),
                out@ == entries_of(s.take(i as int)),
                forall|t: int|
                    0 <= t < out@.len() ==> table_map(s).contains_key((#[trigger] out@[t]).0)
                        && table_map(s)[out@[t].0] == out@[t].1,
                forall|k: K|
                    table_map(s.take(i as int)).contains_key(k) ==> exists|t: int|
                        0 <= t < out@.len() && (#[trigger] out@[t]).0 == k,
                forall|t: int|
                    0 <= t < out@.len() ==> table_map(s.take(i as int)).contains_key(
                        (#[trigger] out@[t]).0,
                    ),
                forall|t1: int, t2: int| 0 <= t1 < t2 < out@.len() ==> out@[t1].0 != out@[t2].0,
            decreases n - i,
        {
            proof {
                lemma_count_take_step(s, occ_pred(), i as int);
                lemma_entries_take_step(s, i as int);
                lemma_unique_take(s, i as int + 1);
                assert(s.take(i as int + 1).drop_last() =~= s.take(i as int));
                lemma_map_snoc(s.take(i as int + 1));
                assert(s.take(i as int + 1).last() == s[i as int]);
            }
            let mut cur = Slot::Empty;
            core::mem::swap(&mut cur, &mut self.slots[i]);
            proof {
                assert(cur == s[i as int]);
            }
            match cur {
                Slot::Occupied { key, value, .. } => {
                    proof {
                        lemma_map_of_slot(s, i as int);
                    }
                    let ghost out0 = out@;
                    out.push((key, value));
                    proof {
                        assert forall|k: K| #[trigger]
                            table_map(s.take(i as int + 1)).contains_key(k) implies exists|t: int|
                            0 <= t < out@.len() && (#[trigger] out@[t]).0 == k by {
                            if k == key_of(s[i as int]) {
                                assert(out@[out@.len() - 1].0 == k);
                            } else {
                                assert(table_map(s.take(i as int)).contains_key(k));
                                let t = choose|t: int|
                                    0 <= t < out0.len() && (#[trigger] out0[t]).0 == k;
                                assert(out@[t] == out0[t]);
                            }
                        }
                    }
                },
                _ => {},
            }
            i = i + 1;
        }
        self.occupied = 0;
        self.tombstones = 0;
        proof {
            assert(s.take(n as int) =~= s);
            lemma_entries_take_all(s);
            lemma_map_len(s);
            lemma_count_zero(self.slots@, occ_pred());
            lemma_count_zero(self.slots@, tomb_pred());
            assert forall|k: K| !table_map(self.slots@).contains_key(k) by {
                if has_key(self.slots@, k) {
                    let a = choose|a: int| slot_for_key(self.slots@, k, a);
                }
            }
            assert(table_map(self.slots@) =~= Map::<K, V>::empty());
        }
        out
    }
}

impl<K: AutoHash + ExactEq + Copy, V: Clone> Table<K, V> {
    /// Copy the table slot for slot: keys are copied, values cloned, and the
    /// probe layout (hence iteration order) is preserved exactly.
    pub(crate) fn clone_table(&self) -> (r: Self)
        requires
            self.wf(),
        ensures
            r.wf(),
            r.cap() == self.cap(),
            r.occupied == self.occupied,
            r.tombstones == self.tombstones,
            r.map_view().dom() =~= self.map_view().dom(),
            forall|k: K|
                r.map_view().dom().contains(k) ==> vstd::pervasive::cloned::<V>(
                    self.map_view()[k],
                    r.map_view()[k],
                ),
            entries_of(r.slots@).len() == entries_of(self.slots@).len(),
            forall|t: int|
                0 <= t < entries_of(self.slots@).len() ==> (#[trigger] entries_of(r.slots@)[t]).0
                    == entries_of(self.slots@)[t].0 && vstd::pervasive::cloned::<V>(
                    entries_of(self.slots@)[t].1,
                    entries_of(r.slots@)[t].1,
                ),
    {
        let ghost s = self.slots@;
        let n = self.slots.len();
        let mut out: Vec<Slot<K, V>> = Vec::new();
        let mut i: usize = 0;
        while i < n
            invariant
                self.wf(),
                s == self.slots@,
                n as int == s.len(),
                0 <= i <= n,
                out@.len() == i as int,
                forall|t: int|
                    0 <= t < i as int ==> ((#[trigger] out@[t]) is Occupied <==> s[t] is Occupied)
                        && (out@[t] is Tombstone <==> s[t] is Tombstone),
                forall|t: int|
                    0 <= t < i as int && (#[trigger] s[t]) is Occupied ==> key_of(out@[t]) == key_of(
                        s[t],
                    ) && hash_of(out@[t]) == hash_of(s[t]) && vstd::pervasive::cloned::<V>(
                        val_of(s[t]),
                        val_of(out@[t]),
                    ),
            decreases n - i,
        {
            match &self.slots[i] {
                Slot::Empty => {
                    out.push(Slot::Empty);
                },
                Slot::Tombstone => {
                    out.push(Slot::Tombstone);
                },
                Slot::Occupied { hash, key, value } => {
                    out.push(Slot::Occupied { hash: *hash, key: *key, value: value.clone() });
                },
            }
            i = i + 1;
        }
        let r = Table { slots: out, occupied: self.occupied, tombstones: self.tombstones };
        proof {
            let o = r.slots@;
            lemma_entries_pointwise(s, o);
            lemma_count_pointwise(o, s, occ_pred());
            lemma_count_pointwise(o, s, tomb_pred());
            assert(keys_unique(o)) by {
                assert forall|a: int, b: int|
                    0 <= a < o.len() && 0 <= b < o.len() && a != b && (#[trigger] o[a]) is Occupied
                        && (#[trigger] o[b]) is Occupied implies key_of(o[a]) != key_of(o[b]) by {
                    assert(key_of(o[a]) == key_of(s[a]) && key_of(o[b]) == key_of(s[b]));
                }
            }
            assert(hashes_ok(o)) by {
                assert forall|m: int|
                    0 <= m < o.len() && (#[trigger] o[m]) is Occupied implies hash_of(o[m])
                    == key_of(o[m]).hash_spec() by {
                    assert(s[m] is Occupied);
                }
            }
            assert(paths_ok(o)) by {
                assert forall|m: int|
                    0 <= m < o.len() && (#[trigger] o[m]) is Occupied implies reachable_at(
                    o,
                    hash_of(o[m]),
                    m,
                ) by {
                    assert(s[m] is Occupied);
                    assert(reachable_at(s, hash_of(s[m]), m));
                    let cap = s.len() as int;
                    let start = slot_start(hash_of(s[m]), cap);
                    assert forall|j: int| 0 <= j < probe_dist(start, m, cap) implies !((
                    #[trigger] o[probe_at(start, j, cap)]) is Empty) by {
                        let p = probe_at(start, j, cap);
                        assert(!(s[p] is Empty));
                    }
                }
            }
            assert(table_map(o).dom() =~= table_map(s).dom()) by {
                assert forall|k: K| has_key(o, k) implies has_key(s, k) by {
                    let a = choose|a: int| slot_for_key(o, k, a);
                    assert(slot_for_key(s, k, a));
                }
                assert forall|k: K| has_key(s, k) implies has_key(o, k) by {
                    let a = choose|a: int| slot_for_key(s, k, a);
                    assert(slot_for_key(o, k, a));
                }
            }
            assert forall|k: K| table_map(o).dom().contains(k) implies vstd::pervasive::cloned::<
                V,
            >(table_map(s)[k], table_map(o)[k]) by {
                let a = index_of_key(o, k);
                assert(slot_for_key(o, k, a));
                assert(slot_for_key(s, k, a));
                lemma_map_of_slot(o, a);
                lemma_map_of_slot(s, a);
            }
        }
        r
    }
}

} // verus!
