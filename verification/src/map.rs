//! A hash map over self-hashed keys.

use vstd::prelude::*;

use crate::table::entries_of;
use crate::table::lemma_map_len;
use crate::table::lemma_map_of_slot;
use crate::table::slot_for_key;
use crate::table::FindRes;
use crate::table::Table;
use crate::AutoHash;
use crate::ExactEq;
use crate::MAX_KEYS;

verus! {

/// The error returned by [`AutoHashMap::try_reserve`] and
/// [`AutoHashSet::try_reserve`](crate::set::AutoHashSet::try_reserve) when
/// the requested room would push the table past [`MAX_KEYS`].
#[derive(Clone, Copy, PartialEq, Eq, Structural, Debug)]
pub struct TryReserveError;

/// A hash map whose keys report their own hash through [`AutoHash`].
///
/// Logically the map is the [`Map`] returned by its view `@`: `insert`,
/// `remove` and `get` are specified directly against that view. Internally it
/// is an open-addressing table with tombstone deletion whose load factor
/// (live entries plus tombstones over capacity) never exceeds 7/8.
pub struct AutoHashMap<K: AutoHash + ExactEq, V> {
    table: Table<K, V>,
}

impl<K: AutoHash + ExactEq, V> View for AutoHashMap<K, V> {
    type V = Map<K, V>;

    closed spec fn view(&self) -> Map<K, V> {
        self.table.map_view()
    }
}

impl<K: AutoHash + ExactEq, V> AutoHashMap<K, V> {
    #[verifier::type_invariant]
    spec fn inv(&self) -> bool {
        self.table.wf()
    }

    /// How many slots the backing table currently has.
    pub closed spec fn spec_capacity(&self) -> nat {
        self.table.cap()
    }

    /// How many slots hold a live entry.
    pub closed spec fn spec_occupied(&self) -> nat {
        self.table.occupied as nat
    }

    /// How many slots hold a tombstone left behind by a removal.
    pub closed spec fn spec_tombstones(&self) -> nat {
        self.table.tombstones as nat
    }

    /// The live entries in table storage order: the exact sequence that
    /// `iter` and `drain` walk.
    pub closed spec fn spec_entries(&self) -> Seq<(K, V)> {
        entries_of(self.table.slots@)
    }

    /// An empty map, with no slots allocated yet.
    pub fn new() -> (r: Self)
        ensures
            r@ == Map::<K, V>::empty(),
            r.spec_capacity() == 0,
    {
        let r = AutoHashMap { table: Table::new() };
        proof {
            assert(r@ =~= Map::<K, V>::empty());
        }
        r
    }

    /// An empty map with room for `capacity` entries before any growth.
    pub fn with_capacity(capacity: usize) -> (r: Self)
        requires
            capacity <= MAX_KEYS,
        ensures
            r@ == Map::<K, V>::empty(),
            capacity > 0 ==> 8 * capacity <= 7 * r.spec_capacity(),
    {
        let mut t = Table::new();
        t.reserve_cap(capacity);
        let r = AutoHashMap { table: t };
        proof {
            assert(r@ =~= Map::<K, V>::empty());
        }
        r
    }

    /// The number of live entries.
    pub fn len(&self) -> (n: usize)
        ensures
            n == self@.dom().len(),
            self@.dom().finite(),
    {
        proof {
            use_type_invariant(self);
            lemma_map_len(self.table.slots@);
        }
        self.table.occupied
    }

    /// Whether the map holds no entry.
    pub fn is_empty(&self) -> (r: bool)
        ensures
            r <==> self@ == Map::<K, V>::empty(),
    {
        proof {
            use_type_invariant(self);
            lemma_map_len(self.table.slots@);
            if self.table.occupied == 0 {
                self@.dom().lemma_len0_is_empty();
                assert(self@ =~= Map::<K, V>::empty());
            } else {
                assert(self@.dom() =~= Set::<K>::empty() ==> self@.dom().len() == 0);
            }
        }
        self.table.occupied == 0
    }

    /// Borrow the value `key` maps to, if any.
    pub fn get(&self, key: &K) -> (r: Option<&V>)
        ensures
            match r {
                Some(v) => self@.contains_key(*key) && *v == self@[*key],
                None => !self@.contains_key(*key),
            },
    {
        proof {
            use_type_invariant(self);
        }
        self.table.get(key)
    }

    /// Whether `key` has an entry.
    pub fn contains_key(&self, key: &K) -> (r: bool)
        ensures
            r == self@.contains_key(*key),
    {
        self.get(key).is_some()
    }

    /// Map `key` to `value`, returning the value it was mapped to before.
    ///
    /// Growth happens in here when the load factor would pass 7/8; the bound
    /// on the entry count is what keeps the grown capacity inside `usize`.
    /// The last two clauses state the load-factor law: after any insert, live
    /// entries plus tombstones fill at most 7/8 of the capacity.
    pub fn insert(&mut self, key: K, value: V) -> (r: Option<V>)
        requires
            old(self)@.dom().len() < MAX_KEYS,
        ensures
            final(self)@ == old(self)@.insert(key, value),
            r == if old(self)@.contains_key(key) {
                Some(old(self)@[key])
            } else {
                None::<V>
            },
            8 * (final(self).spec_occupied() + final(self).spec_tombstones()) <= 7 * final(self).spec_capacity(),
            final(self).spec_occupied() == final(self)@.dom().len(),
    {
        proof {
            use_type_invariant(&*self);
        }
        let mut t = Table::new();
        core::mem::swap(&mut t, &mut self.table);
        let r = t.insert(key, value);
        self.table = t;
        proof {
            lemma_map_len(self.table.slots@);
        }
        r
    }

    /// The occupancy counters: live entries, tombstones, and capacity.
    ///
    /// The load-factor invariant is part of the contract: at any time, live
    /// entries plus tombstones fill at most 7/8 of the capacity, and a table
    /// with no slots holds nothing.
    pub fn occupancy(&self) -> (r: (usize, usize, usize))
        ensures
            r.0 == self.spec_occupied(),
            r.1 == self.spec_tombstones(),
            r.2 == self.spec_capacity(),
            r.0 == self@.dom().len(),
            r.2 > 0 ==> 8 * (r.0 + r.1) <= 7 * r.2,
            r.2 == 0 ==> r.0 == 0 && r.1 == 0,
    {
        proof {
            use_type_invariant(self);
            lemma_map_len(self.table.slots@);
        }
        (self.table.occupied, self.table.tombstones, self.table.slots.len())
    }

    /// Remove `key`'s entry, returning the value it mapped to.
    ///
    /// The slot becomes a tombstone, so later lookups keep probing past it;
    /// the space is reclaimed at the next growth or shrink.
    pub fn remove(&mut self, key: &K) -> (r: Option<V>)
        ensures
            final(self)@ == old(self)@.remove(*key),
            r == if old(self)@.contains_key(*key) {
                Some(old(self)@[*key])
            } else {
                None::<V>
            },
    {
        proof {
            use_type_invariant(&*self);
        }
        let mut t = Table::new();
        core::mem::swap(&mut t, &mut self.table);
        let r = t.remove(key);
        self.table = t;
        r
    }

    /// Remove every entry, keeping the allocated slots for reuse.
    pub fn clear(&mut self)
        ensures
            final(self)@ == Map::<K, V>::empty(),
            final(self).spec_capacity() == old(self).spec_capacity(),
    {
        proof {
            use_type_invariant(&*self);
        }
        let mut t = Table::new();
        core::mem::swap(&mut t, &mut self.table);
        t.clear();
        self.table = t;
    }

    /// Make room for `additional` further entries without growth in between.
    pub fn reserve(&mut self, additional: usize)
        requires
            old(self)@.dom().len() + additional <= MAX_KEYS,
        ensures
            final(self)@ == old(self)@,
            additional > 0 ==> 8 * (final(self).spec_occupied() + final(self).spec_tombstones()
                + additional) <= 7 * final(self).spec_capacity(),
    {
        proof {
            use_type_invariant(&*self);
            lemma_map_len(self.table.slots@);
        }
        let mut t = Table::new();
        core::mem::swap(&mut t, &mut self.table);
        t.reserve_cap(additional);
        self.table = t;
    }

    /// Like [`reserve`](Self::reserve), but reports a request past
    /// [`MAX_KEYS`] as an error instead of demanding it never happens.
    pub fn try_reserve(&mut self, additional: usize) -> (r: Result<(), TryReserveError>)
        ensures
            final(self)@ == old(self)@,
            r is Ok <==> old(self)@.dom().len() + additional <= MAX_KEYS,
            r is Ok && additional > 0 ==> 8 * (final(self).spec_occupied()
                + final(self).spec_tombstones() + additional) <= 7 * final(self).spec_capacity(),
    {
        proof {
            use_type_invariant(&*self);
            lemma_map_len(self.table.slots@);
        }
        if additional <= MAX_KEYS && self.table.occupied <= MAX_KEYS - additional {
            self.reserve(additional);
            Ok(())
        } else {
            Err(TryReserveError)
        }
    }

    /// Rehash into the smallest table this implementation uses for the
    /// current number of entries, reclaiming all tombstones.
    pub fn shrink_to_fit(&mut self)
        ensures
            final(self)@ == old(self)@,
            final(self).spec_tombstones() == 0,
            final(self).spec_capacity() <= 8 + 2 * old(self)@.dom().len(),
    {
        proof {
            use_type_invariant(&*self);
            lemma_map_len(self.table.slots@);
        }
        let mut t = Table::new();
        core::mem::swap(&mut t, &mut self.table);
        if t.slots.len() > 0 {
            let occ = t.occupied;
            let want = (8 * occ + 6) / 7;
            let target = if want >= 8 {
                want
            } else {
                8
            };
            proof {
                assert(8 * occ <= 7 * target);
                assert(target <= crate::table::CAP_LIMIT);
            }
            t.rehash_to(target);
        }
        self.table = t;
    }


    /// Borrow the value `key` maps to, mutably. Only the value payload is
    /// exposed: the table's structure stays read-only for the duration of the
    /// borrow, and whatever the caller writes becomes `key`'s entry.
    pub fn get_mut(&mut self, key: &K) -> (r: &mut V)
        requires
            old(self)@.contains_key(*key),
        ensures
            *r == old(self)@[*key],
            final(self)@ == old(self)@.insert(*key, *final(r)),
    {
        proof {
            use_type_invariant(&*self);
            let w = choose|w: int| slot_for_key(self.table.slots@, *key, w);
            assert(8 * (self.table.occupied + self.table.tombstones) <= 7 * self.table.slots@.len());
        }
        let hash = key.get_hash();
        match self.table.find(hash, key) {
            FindRes::Found(i) => {
                proof {
                    lemma_map_of_slot(self.table.slots@, i as int);
                }
                self.table.slot_value_mut(i)
            },
            FindRes::Free(_) => {
                proof {
                    assert(false);
                }
                vstd::pervasive::unreached()
            },
        }
    }

    /// Borrow the value for `key` mutably, first inserting `value` if the
    /// key has no entry yet: the entry-style "insert or fetch for in-place
    /// mutation" operation.
    pub fn get_or_insert(&mut self, key: K, value: V) -> (r: &mut V)
        requires
            old(self)@.dom().len() < MAX_KEYS,
        ensures
            *r == if old(self)@.contains_key(key) {
                old(self)@[key]
            } else {
                value
            },
            final(self)@ == old(self)@.insert(key, *final(r)),
    {
        proof {
            use_type_invariant(&*self);
        }
        let mut t = Table::new();
        core::mem::swap(&mut t, &mut self.table);
        let i = t.place_entry(key, value);
        self.table = t;
        self.table.slot_value_mut(i)
    }

    /// Borrow every entry, in table storage order (not insertion order).
    ///
    /// The sequence pairs each live key with its value, covers every key of
    /// the view exactly once, and holds nothing else.
    pub fn iter<'a>(&'a self) -> (r: Vec<(&'a K, &'a V)>)
        ensures
            r@.len() == self.spec_entries().len(),
            forall|t: int|
                0 <= t < r@.len() ==> (*(#[trigger] r@[t]).0, *r@[t].1) == self.spec_entries()[t],
            r@.len() == self@.dom().len(),
            forall|t: int|
                0 <= t < r@.len() ==> self@.contains_key(*(#[trigger] r@[t]).0) && self@[*r@[t].0]
                    == *r@[t].1,
            forall|k: K|
                self@.contains_key(k) ==> exists|t: int|
                    0 <= t < r@.len() && *(#[trigger] r@[t]).0 == k,
            forall|t1: int, t2: int| 0 <= t1 < t2 < r@.len() ==> *r@[t1].0 != *r@[t2].0,
    {
        proof {
            use_type_invariant(self);
        }
        self.table.pairs()
    }

    /// Borrow every key, in table storage order.
    pub fn keys<'a>(&'a self) -> (r: Vec<&'a K>)
        ensures
            r@.len() == self.spec_entries().len(),
            forall|t: int| 0 <= t < r@.len() ==> *(#[trigger] r@[t]) == self.spec_entries()[t].0,
            r@.len() == self@.dom().len(),
            forall|t: int| 0 <= t < r@.len() ==> self@.contains_key(*(#[trigger] r@[t])),
            forall|k: K|
                self@.contains_key(k) ==> exists|t: int| 0 <= t < r@.len() && *(#[trigger] r@[t])
                    == k,
            forall|t1: int, t2: int| 0 <= t1 < t2 < r@.len() ==> *r@[t1] != *r@[t2],
    {
        let pairs = self.iter();
        let n = pairs.len();
        let mut out: Vec<&K> = Vec::new();
        let mut i: usize = 0;
        while i < n
            invariant
                n as int == pairs@.len(),
                0 <= i <= n,
                out@.len() == i as int,
                forall|t: int| 0 <= t < i as int ==> (#[trigger] out@[t]) == pairs@[t].0,
                pairs@.len() == self.spec_entries().len(),
                forall|t: int|
                    0 <= t < pairs@.len() ==> (*(#[trigger] pairs@[t]).0, *pairs@[t].1)
                        == self.spec_entries()[t],
                pairs@.len() == self@.dom().len(),
                forall|t: int|
                    0 <= t < pairs@.len() ==> self@.contains_key(*(#[trigger] pairs@[t]).0),
                forall|k: K|
                    self@.contains_key(k) ==> exists|t: int|
                        0 <= t < pairs@.len() && *(#[trigger] pairs@[t]).0 == k,
                forall|t1: int, t2: int|
                    0 <= t1 < t2 < pairs@.len() ==> *pairs@[t1].0 != *pairs@[t2].0,
            decreases n - i,
        {
            let p = pairs[i];
            out.push(p.0);
            i = i + 1;
        }
        proof {
            assert forall|k: K| self@.contains_key(k) implies exists|t: int|
                0 <= t < out@.len() && *(#[trigger] out@[t]) == k by {
                let t = choose|t: int| 0 <= t < pairs@.len() && *(#[trigger] pairs@[t]).0 == k;
                assert(out@[t] == pairs@[t].0);
            }
        }
        out
    }

    /// Borrow every value, in table storage order.
    pub fn values<'a>(&'a self) -> (r: Vec<&'a V>)
        ensures
            r@.len() == self.spec_entries().len(),
            forall|t: int| 0 <= t < r@.len() ==> *(#[trigger] r@[t]) == self.spec_entries()[t].1,
            r@.len() == self@.dom().len(),
            forall|t: int| 0 <= t < r@.len() ==> is_value_of(self@, *(#[trigger] r@[t])),
            forall|k: K|
                self@.contains_key(k) ==> exists|t: int| 0 <= t < r@.len() && *(#[trigger] r@[t])
                    == self@[k],
    {
        let pairs = self.iter();
        let n = pairs.len();
        let mut out: Vec<&V> = Vec::new();
        let mut i: usize = 0;
        while i < n
            invariant
                n as int == pairs@.len(),
                0 <= i <= n,
                out@.len() == i as int,
                forall|t: int| 0 <= t < i as int ==> (#[trigger] out@[t]) == pairs@[t].1,
                pairs@.len() == self.spec_entries().len(),
                forall|t: int|
                    0 <= t < pairs@.len() ==> (*(#[trigger] pairs@[t]).0, *pairs@[t].1)
                        == self.spec_entries()[t],
                pairs@.len() == self@.dom().len(),
                forall|t: int|
                    0 <= t < pairs@.len() ==> self@.contains_key(*(#[trigger] pairs@[t]).0)
                        && self@[*pairs@[t].0] == *pairs@[t].1,
                forall|k: K|
                    self@.contains_key(k) ==> exists|t: int|
                        0 <= t < pairs@.len() && *(#[trigger] pairs@[t]).0 == k,
            decreases n - i,
        {
            let p = pairs[i];
            out.push(p.1);
            i = i + 1;
        }
        proof {
            assert forall|t: int| 0 <= t < out@.len() implies is_value_of(
                self@,
                *(#[trigger] out@[t]),
            ) by {
                assert(out@[t] == pairs@[t].1);
                assert(self@.contains_key(*pairs@[t].0) && self@[*pairs@[t].0] == *out@[t]);
            }
            assert forall|k: K| self@.contains_key(k) implies exists|t: int|
                0 <= t < out@.len() && *(#[trigger] out@[t]) == self@[k] by {
                let t = choose|t: int| 0 <= t < pairs@.len() && *(#[trigger] pairs@[t]).0 == k;
                assert(*out@[t] == self@[k]);
            }
        }
        out
    }

    /// Move every entry out, in table storage order, leaving the map empty
    /// while keeping its allocation for reuse.
    pub fn drain(&mut self) -> (r: Vec<(K, V)>)
        ensures
            final(self)@ == Map::<K, V>::empty(),
            final(self).spec_capacity() == old(self).spec_capacity(),
            r@ == old(self).spec_entries(),
            r@.len() == old(self)@.dom().len(),
            forall|t: int|
                0 <= t < r@.len() ==> old(self)@.contains_key((#[trigger] r@[t]).0)
                    && old(self)@[r@[t].0] == r@[t].1,
            forall|k: K|
                old(self)@.contains_key(k) ==> exists|t: int|
                    0 <= t < r@.len() && (#[trigger] r@[t]).0 == k,
            forall|t1: int, t2: int| 0 <= t1 < t2 < r@.len() ==> r@[t1].0 != r@[t2].0,
    {
        proof {
            use_type_invariant(&*self);
        }
        let mut t = Table::new();
        core::mem::swap(&mut t, &mut self.table);
        let r = t.drain();
        self.table = t;
        r
    }
}

impl<K: AutoHash + ExactEq + Copy, V: Clone> Clone for AutoHashMap<K, V> {
    /// A deep copy that preserves the slot layout, hence the iteration
    /// order: keys are copied, values cloned. The clone's view has exactly
    /// the same keys; each value is related to the original's by what
    /// `V::clone` promises, so for value types whose clone is exact the two
    /// views are equal.
    fn clone(&self) -> (r: Self)
        ensures
            r@.dom() =~= self@.dom(),
            forall|k: K|
                #[trigger] r@.dom().contains(k) ==> vstd::pervasive::cloned::<V>(self@[k], r@[k]),
            r.spec_capacity() == self.spec_capacity(),
            r.spec_entries().len() == self.spec_entries().len(),
            forall|t: int|
                0 <= t < self.spec_entries().len() ==> (#[trigger] r.spec_entries()[t]).0
                    == self.spec_entries()[t].0 && vstd::pervasive::cloned::<V>(
                    self.spec_entries()[t].1,
                    r.spec_entries()[t].1,
                ),
    {
        proof {
            use_type_invariant(self);
        }
        AutoHashMap { table: self.table.clone_table() }
    }
}

/// Whether `v` is the value of some key of `m`.
pub open spec fn is_value_of<K, V>(m: Map<K, V>, v: V) -> bool {
    exists|k: K| #![auto] m.contains_key(k) && m[k] == v
}

/// The map that results from inserting each pair of `entries` in order into
/// `m`: a later pair with the same key overwrites an earlier one.
pub open spec fn insert_seq<K, V>(m: Map<K, V>, entries: Seq<(K, V)>) -> Map<K, V>
    decreases entries.len(),
{
    if entries.len() == 0 {
        m
    } else {
        insert_seq(m, entries.drop_last()).insert(entries.last().0, entries.last().1)
    }
}

/// Inserting a sequence of pairs grows the key set by at most the number of
/// pairs.
pub proof fn lemma_insert_seq_len<K, V>(m: Map<K, V>, entries: Seq<(K, V)>)
    requires
        m.dom().finite(),
    ensures
        insert_seq(m, entries).dom().finite(),
        insert_seq(m, entries).dom().len() <= m.dom().len() + entries.len(),
    decreases entries.len(),
{
    if entries.len() > 0 {
        lemma_insert_seq_len(m, entries.drop_last());
    }
}

impl<K: AutoHash + ExactEq, V> AutoHashMap<K, V> {
    /// Insert every pair of `entries`, in order.
    fn insert_all(&mut self, entries: Vec<(K, V)>)
        requires
            old(self)@.dom().len() + entries@.len() <= MAX_KEYS,
        ensures
            final(self)@ == insert_seq(old(self)@, entries@),
    {
        proof {
            use_type_invariant(&*self);
            lemma_map_len(self.table.slots@);
        }
        let ghost orig = entries@;
        let ghost m0 = self@;
        let mut rest = entries;
        while rest.len() > 0
            invariant
                orig.len() <= MAX_KEYS,
                m0.dom().len() + orig.len() <= MAX_KEYS,
                m0.dom().finite(),
                rest@.len() <= orig.len(),
                rest@ =~= orig.skip(orig.len() - rest@.len()),
                self@ == insert_seq(m0, orig.take(orig.len() - rest@.len())),
            decreases rest@.len(),
        {
            let ghost i = orig.len() - rest@.len();
            proof {
                use_type_invariant(&*self);
                lemma_insert_seq_len(m0, orig.take(i));
                assert(orig.take(i).len() == i);
                assert(orig.take(i + 1).drop_last() =~= orig.take(i));
                assert(orig.take(i + 1).last() == orig[i]);
                assert(rest@[0] == orig[i]);
            }
            let p = rest.remove(0);
            self.insert(p.0, p.1);
            proof {
                assert(rest@ =~= orig.skip(i + 1));
            }
        }
        proof {
            assert(orig.take(orig.len() as int) =~= orig);
        }
    }

    /// Extend the map with a batch of pairs collected elsewhere (for example
    /// by a parallel producer), in order.
    ///
    /// Keys may already be present or appear several times in the batch. The
    /// whole batch is reserved for when the map is empty; otherwise half of
    /// it, rounded up, so the table resizes at most twice while inserting.
    pub fn par_extend(&mut self, entries: Vec<(K, V)>)
        requires
            old(self)@.dom().len() + entries@.len() <= MAX_KEYS,
        ensures
            final(self)@ == insert_seq(old(self)@, entries@),
    {
        let reserve = if self.is_empty() {
            entries.len()
        } else {
            (entries.len() + 1) / 2
        };
        proof {
            use_type_invariant(&*self);
            lemma_map_len(self.table.slots@);
        }
        self.reserve(reserve);
        self.insert_all(entries);
    }

    /// Collect a batch of pairs into a fresh map. A key appearing twice keeps
    /// the later pair's value.
    pub fn from_par_iter(entries: Vec<(K, V)>) -> (r: Self)
        requires
            entries@.len() <= MAX_KEYS,
        ensures
            r@ == insert_seq(Map::<K, V>::empty(), entries@),
    {
        let mut r = Self::new();
        r.par_extend(entries);
        r
    }

    /// Build a map from decoded pairs, sizing the initial table from an
    /// untrusted length hint: the hint is capped by
    /// [`cautious`](crate::size_hint::cautious), so a hostile hint cannot
    /// force a huge allocation.
    pub fn from_pairs_hinted(hint: Option<usize>, entries: Vec<(K, V)>) -> (r: Self)
        requires
            entries@.len() <= MAX_KEYS,
        ensures
            r@ == insert_seq(Map::<K, V>::empty(), entries@),
    {
        let mut r = Self::with_capacity(crate::size_hint::cautious(hint));
        r.insert_all(entries);
        r
    }
}

// ---------------------------------------------------------------------------
// Laws
// ---------------------------------------------------------------------------
/// Round-trip law: immediately after `insert(k, v)` the view maps `k` to `v`,
/// so `get(k)` (specified against the view) returns `v`; after `remove(k)`
/// the view has no entry for `k`, so `get(k)` reports absence.
pub proof fn lemma_insert_get_round_trip<K, V>(m: Map<K, V>, k: K, v: V)
    ensures
        m.insert(k, v).contains_key(k),
        m.insert(k, v)[k] == v,
        !m.remove(k).contains_key(k),
{
}

/// Growth-transparency law: an insert of a fresh key — including one that
/// makes the table grow and rehash, since `insert` promises the same view
/// update either way — leaves every other key's value untouched.
pub proof fn lemma_growth_preserves_contents<K, V>(m: Map<K, V>, k: K, k2: K, v2: V)
    requires
        m.contains_key(k),
        k2 != k,
    ensures
        m.insert(k2, v2).contains_key(k),
        m.insert(k2, v2)[k] == m[k],
{
}

/// Tombstone law: after inserting `k1`, removing it, and inserting a distinct
/// `k2`, the map holds `k2`'s value and reports `k1` absent. This holds in
/// particular when `k1` and `k2` have colliding hashes, where `k2` sits past
/// `k1`'s tombstone on the shared probe path.
pub proof fn lemma_tombstone_lookup<K, V>(m: Map<K, V>, k1: K, v1: V, k2: K, v2: V)
    requires
        k1 != k2,
    ensures
        m.insert(k1, v1).remove(k1).insert(k2, v2).contains_key(k2),
        m.insert(k1, v1).remove(k1).insert(k2, v2)[k2] == v2,
        !m.insert(k1, v1).remove(k1).insert(k2, v2).contains_key(k1),
{
}

} // verus!
