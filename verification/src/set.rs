//! A hash set of self-hashed values.

use vstd::prelude::*;

use crate::map::AutoHashMap;
use crate::map::TryReserveError;
use crate::AutoHash;
use crate::ExactEq;
use crate::MAX_KEYS;

verus! {

/// A hash set whose elements report their own hash through [`AutoHash`].
///
/// Implemented as an [`AutoHashMap`] whose values are the empty marker `()`;
/// the marker is never exposed. Logically the set is the [`Set`] returned by
/// its view `@`.
pub struct AutoHashSet<T: AutoHash + ExactEq> {
    map: AutoHashMap<T, ()>,
}

impl<T: AutoHash + ExactEq> View for AutoHashSet<T> {
    type V = Set<T>;

    closed spec fn view(&self) -> Set<T> {
        self.map@.dom()
    }
}

/// The set that results from inserting each element of `vs` in order.
pub open spec fn insert_vals<T>(s: Set<T>, vs: Seq<T>) -> Set<T>
    decreases vs.len(),
{
    if vs.len() == 0 {
        s
    } else {
        insert_vals(s, vs.drop_last()).insert(vs.last())
    }
}

/// Inserting a sequence of elements grows the set by at most its length.
pub proof fn lemma_insert_vals_len<T>(s: Set<T>, vs: Seq<T>)
    requires
        s.finite(),
    ensures
        insert_vals(s, vs).finite(),
        insert_vals(s, vs).len() <= s.len() + vs.len(),
    decreases vs.len(),
{
    if vs.len() > 0 {
        lemma_insert_vals_len(s, vs.drop_last());
    }
}

impl<T: AutoHash + ExactEq> AutoHashSet<T> {
    /// How many slots the backing table currently has.
    pub closed spec fn spec_capacity(&self) -> nat {
        self.map.spec_capacity()
    }

    /// How many slots hold a live element.
    pub closed spec fn spec_occupied(&self) -> nat {
        self.map.spec_occupied()
    }

    /// How many slots hold a tombstone left behind by a removal.
    pub closed spec fn spec_tombstones(&self) -> nat {
        self.map.spec_tombstones()
    }

    /// The occupancy counters: live elements, tombstones, and capacity.
    ///
    /// The load-factor invariant is part of the contract: at any time, live
    /// elements plus tombstones fill at most 7/8 of the capacity, and a table
    /// with no slots holds nothing.
    pub fn occupancy(&self) -> (r: (usize, usize, usize))
        ensures
            r.0 == self.spec_occupied(),
            r.1 == self.spec_tombstones(),
            r.2 == self.spec_capacity(),
            r.0 == self@.len(),
            r.2 > 0 ==> 8 * (r.0 + r.1) <= 7 * r.2,
            r.2 == 0 ==> r.0 == 0 && r.1 == 0,
    {
        self.map.occupancy()
    }

    /// An empty set, with no slots allocated yet.
    pub fn new() -> (r: Self)
        ensures
            r@ == Set::<T>::empty(),
    {
        let r = AutoHashSet { map: AutoHashMap::new() };
        proof {
            assert(r@ =~= Set::<T>::empty());
        }
        r
    }

    /// An empty set with room for `capacity` elements before any growth.
    pub fn with_capacity(capacity: usize) -> (r: Self)
        requires
            capacity <= MAX_KEYS,
        ensures
            r@ == Set::<T>::empty(),
            capacity > 0 ==> 8 * capacity <= 7 * r.spec_capacity(),
    {
        let r = AutoHashSet { map: AutoHashMap::with_capacity(capacity) };
        proof {
            assert(r@ =~= Set::<T>::empty());
        }
        r
    }

    /// The number of elements.
    pub fn len(&self) -> (n: usize)
        ensures
            n == self@.len(),
            self@.finite(),
    {
        self.map.len()
    }

    /// Whether the set holds no element.
    pub fn is_empty(&self) -> (r: bool)
        ensures
            r <==> self@ == Set::<T>::empty(),
    {
        let r = self.map.is_empty();
        proof {
            if r {
                assert(self@ =~= Set::<T>::empty());
            } else {
                if self@ == Set::<T>::empty() {
                    assert(self.map@ =~= Map::<T, ()>::empty());
                }
            }
        }
        r
    }

    /// Whether `value` is an element.
    pub fn contains(&self, value: &T) -> (r: bool)
        ensures
            r == self@.contains(*value),
    {
        self.map.contains_key(value)
    }

    /// Add `value`; report whether it was newly added.
    ///
    /// The last clause states the load-factor law: after any insert, live
    /// elements plus tombstones fill at most 7/8 of the capacity.
    pub fn insert(&mut self, value: T) -> (r: bool)
        requires
            old(self)@.len() < MAX_KEYS,
        ensures
            final(self)@ == old(self)@.insert(value),
            r == !old(self)@.contains(value),
            8 * (final(self).spec_occupied() + final(self).spec_tombstones()) <= 7 * final(self).spec_capacity(),
    {
        let prior = self.map.insert(value, ());
        proof {
            assert(self@ =~= old(self)@.insert(value));
        }
        prior.is_none()
    }

    /// Remove `value`; report whether it was present.
    pub fn remove(&mut self, value: &T) -> (r: bool)
        ensures
            final(self)@ == old(self)@.remove(*value),
            r == old(self)@.contains(*value),
    {
        let prior = self.map.remove(value);
        proof {
            assert(self@ =~= old(self)@.remove(*value));
        }
        prior.is_some()
    }

    /// Remove every element, keeping the allocated slots for reuse.
    pub fn clear(&mut self)
        ensures
            final(self)@ == Set::<T>::empty(),
            final(self).spec_capacity() == old(self).spec_capacity(),
    {
        self.map.clear();
        proof {
            assert(self@ =~= Set::<T>::empty());
        }
    }

    /// Make room for `additional` further elements without growth in between.
    pub fn reserve(&mut self, additional: usize)
        requires
            old(self)@.len() + additional <= MAX_KEYS,
        ensures
            final(self)@ == old(self)@,
            additional > 0 ==> 8 * (final(self).spec_occupied() + final(self).spec_tombstones()
                + additional) <= 7 * final(self).spec_capacity(),
    {
        self.map.reserve(additional);
    }

    /// Like [`reserve`](Self::reserve), but reports a request past
    /// [`MAX_KEYS`] as an error instead of demanding it never happens.
    pub fn try_reserve(&mut self, additional: usize) -> (r: Result<(), TryReserveError>)
        ensures
            final(self)@ == old(self)@,
            r is Ok <==> old(self)@.len() + additional <= MAX_KEYS,
    {
        self.map.try_reserve(additional)
    }

    /// Rehash into the smallest table this implementation uses for the
    /// current number of elements, reclaiming all tombstones.
    pub fn shrink_to_fit(&mut self)
        ensures
            final(self)@ == old(self)@,
            final(self).spec_tombstones() == 0,
            final(self).spec_capacity() <= 8 + 2 * old(self)@.len(),
    {
        self.map.shrink_to_fit();
    }

    /// Borrow every element, in table storage order.
    pub fn iter<'a>(&'a self) -> (r: Vec<&'a T>)
        ensures
            r@.len() == self@.len(),
            forall|t: int| 0 <= t < r@.len() ==> self@.contains(*(#[trigger] r@[t])),
            forall|v: T|
                self@.contains(v) ==> exists|t: int| 0 <= t < r@.len() && *(#[trigger] r@[t]) == v,
            forall|t1: int, t2: int| 0 <= t1 < t2 < r@.len() ==> *r@[t1] != *r@[t2],
    {
        self.map.keys()
    }

    /// Move every element out, in table storage order, leaving the set empty
    /// while keeping its allocation for reuse.
    pub fn drain(&mut self) -> (r: Vec<T>)
        ensures
            final(self)@ == Set::<T>::empty(),
            r@.len() == old(self)@.len(),
            forall|t: int| 0 <= t < r@.len() ==> old(self)@.contains(#[trigger] r@[t]),
            forall|v: T|
                old(self)@.contains(v) ==> exists|t: int| 0 <= t < r@.len() && (#[trigger] r@[t])
                    == v,
            forall|t1: int, t2: int| 0 <= t1 < t2 < r@.len() ==> r@[t1] != r@[t2],
    {
        let pairs = self.map.drain();
        proof {
            assert(self@ =~= Set::<T>::empty());
        }
        let n = pairs.len();
        let mut rest = pairs;
        let ghost orig = rest@;
        let mut out: Vec<T> = Vec::new();
        while rest.len() > 0
            invariant
                orig.len() == n as int,
                out@.len() + rest@.len() == n as int,
                rest@ =~= orig.skip(out@.len() as int),
                forall|t: int| 0 <= t < out@.len() ==> (#[trigger] out@[t]) == orig[t].0,
            decreases rest@.len(),
        {
            let ghost i = out@.len() as int;
            proof {
                assert(rest@[0] == orig[i]);
            }
            let p = rest.remove(0);
            out.push(p.0);
            proof {
                assert(rest@ =~= orig.skip(i + 1));
            }
        }
        proof {
            assert forall|v: T| old(self)@.contains(v) implies exists|t: int|
                0 <= t < out@.len() && (#[trigger] out@[t]) == v by {
                let t = choose|t: int| 0 <= t < orig.len() && (#[trigger] orig[t]).0 == v;
                assert(out@[t] == v);
            }
        }
        out
    }

    /// Insert every element of `values`, in order.
    fn insert_all(&mut self, values: Vec<T>)
        requires
            old(self)@.len() + values@.len() <= MAX_KEYS,
        ensures
            final(self)@ == insert_vals(old(self)@, values@),
    {
        let n0 = self.len();
        proof {
            assert(n0 == old(self)@.len());
        }
        let ghost orig = values@;
        let ghost s0 = self@;
        let mut rest = values;
        while rest.len() > 0
            invariant
                s0.finite(),
                s0.len() + orig.len() <= MAX_KEYS,
                rest@.len() <= orig.len(),
                rest@ =~= orig.skip(orig.len() - rest@.len()),
                self@ == insert_vals(s0, orig.take(orig.len() - rest@.len())),
            decreases rest@.len(),
        {
            let ghost i = orig.len() - rest@.len();
            proof {
                lemma_insert_vals_len(s0, orig.take(i));
                assert(orig.take(i).len() == i);
                assert(orig.take(i + 1).drop_last() =~= orig.take(i));
                assert(orig.take(i + 1).last() == orig[i]);
                assert(rest@[0] == orig[i]);
            }
            let v = rest.remove(0);
            self.insert(v);
            proof {
                assert(rest@ =~= orig.skip(i + 1));
            }
        }
        proof {
            assert(orig.take(orig.len() as int) =~= orig);
        }
    }

    /// Build a set from decoded values, sizing the initial table from an
    /// untrusted length hint capped by
    /// [`cautious`](crate::size_hint::cautious).
    pub fn from_values_hinted(hint: Option<usize>, values: Vec<T>) -> (r: Self)
        requires
            values@.len() <= MAX_KEYS,
        ensures
            r@ == insert_vals(Set::<T>::empty(), values@),
    {
        let mut r = Self::with_capacity(crate::size_hint::cautious(hint));
        r.insert_all(values);
        r
    }

    /// Refill the set in place from decoded values: clear it, reserve room
    /// bounded by the capped hint, and insert each value in order. The
    /// existing allocation is reused where it is large enough.
    pub fn refill_hinted(&mut self, hint: Option<usize>, values: Vec<T>)
        requires
            values@.len() <= MAX_KEYS,
        ensures
            final(self)@ == insert_vals(Set::<T>::empty(), values@),
    {
        self.clear();
        self.reserve(crate::size_hint::cautious(hint));
        self.insert_all(values);
    }
}

} // verus!
