//! Batch iteration entry points for work-splitting consumers.
//!
//! A parallel consumer splits a snapshot of the table into disjoint ranges
//! and walks them independently. These types hand such a consumer everything
//! it needs from the map — a borrowed, owned, or draining batch of entries —
//! while the map itself stays single-writer. The equality check `par_eq` is
//! the "same length, and every key of one looks up to an equal value in the
//! other" formulation, which splits over entries.

use vstd::prelude::*;

use crate::map::is_value_of;
use crate::map::AutoHashMap;
use crate::AutoHash;
use crate::ExactEq;
use crate::MAX_KEYS;

verus! {

/// A borrowed batch over a map's entries.
///
/// Created by [`AutoHashMap::into_par_entries`] on a reference; consumed with
/// [`into_vec`](Self::into_vec).
pub struct ParIter<'a, K: AutoHash + ExactEq, V> {
    map: &'a AutoHashMap<K, V>,
}

impl<'a, K: AutoHash + ExactEq, V> View for ParIter<'a, K, V> {
    type V = Map<K, V>;

    closed spec fn view(&self) -> Map<K, V> {
        self.map@
    }
}

impl<'a, K: AutoHash + ExactEq, V> ParIter<'a, K, V> {
    /// The borrowed entries, one per key of the map.
    pub fn into_vec(self) -> (r: Vec<(&'a K, &'a V)>)
        ensures
            r@.len() == self@.dom().len(),
            forall|t: int|
                0 <= t < r@.len() ==> self@.contains_key(*(#[trigger] r@[t]).0) && self@[*r@[t].0]
                    == *r@[t].1,
            forall|k: K|
                self@.contains_key(k) ==> exists|t: int|
                    0 <= t < r@.len() && *(#[trigger] r@[t]).0 == k,
    {
        self.map.iter()
    }
}

impl<'a, K: AutoHash + ExactEq, V> Clone for ParIter<'a, K, V> {
    fn clone(&self) -> (r: Self)
        ensures
            r@ == self@,
    {
        ParIter { map: self.map }
    }
}

/// A borrowed batch over a map's keys.
///
/// Created by [`AutoHashMap::par_keys`]; consumed with
/// [`into_vec`](Self::into_vec).
pub struct ParKeys<'a, K: AutoHash + ExactEq, V> {
    map: &'a AutoHashMap<K, V>,
}

impl<'a, K: AutoHash + ExactEq, V> View for ParKeys<'a, K, V> {
    type V = Map<K, V>;

    closed spec fn view(&self) -> Map<K, V> {
        self.map@
    }
}

impl<'a, K: AutoHash + ExactEq, V> ParKeys<'a, K, V> {
    /// The borrowed keys, each key of the map exactly once.
    pub fn into_vec(self) -> (r: Vec<&'a K>)
        ensures
            r@.len() == self@.dom().len(),
            forall|t: int| 0 <= t < r@.len() ==> self@.contains_key(*(#[trigger] r@[t])),
            forall|k: K|
                self@.contains_key(k) ==> exists|t: int| 0 <= t < r@.len() && *(#[trigger] r@[t])
                    == k,
            forall|t1: int, t2: int| 0 <= t1 < t2 < r@.len() ==> *r@[t1] != *r@[t2],
    {
        self.map.keys()
    }
}

impl<'a, K: AutoHash + ExactEq, V> Clone for ParKeys<'a, K, V> {
    fn clone(&self) -> (r: Self)
        ensures
            r@ == self@,
    {
        ParKeys { map: self.map }
    }
}

/// A borrowed batch over a map's values.
///
/// Created by [`AutoHashMap::par_values`]; consumed with
/// [`into_vec`](Self::into_vec).
pub struct ParValues<'a, K: AutoHash + ExactEq, V> {
    map: &'a AutoHashMap<K, V>,
}

impl<'a, K: AutoHash + ExactEq, V> View for ParValues<'a, K, V> {
    type V = Map<K, V>;

    closed spec fn view(&self) -> Map<K, V> {
        self.map@
    }
}

impl<'a, K: AutoHash + ExactEq, V> ParValues<'a, K, V> {
    /// The borrowed values, one per key of the map.
    pub fn into_vec(self) -> (r: Vec<&'a V>)
        ensures
            r@.len() == self@.dom().len(),
            forall|t: int| 0 <= t < r@.len() ==> is_value_of(self@, *(#[trigger] r@[t])),
            forall|k: K|
                self@.contains_key(k) ==> exists|t: int| 0 <= t < r@.len() && *(#[trigger] r@[t])
                    == self@[k],
    {
        self.map.values()
    }
}

impl<'a, K: AutoHash + ExactEq, V> Clone for ParValues<'a, K, V> {
    fn clone(&self) -> (r: Self)
        ensures
            r@ == self@,
    {
        ParValues { map: self.map }
    }
}

/// An owned batch over a consumed map's entries.
///
/// Created by [`AutoHashMap::into_par_iter`]; consumed with
/// [`into_vec`](Self::into_vec).
pub struct IntoParIter<K: AutoHash + ExactEq, V> {
    map: AutoHashMap<K, V>,
}

impl<K: AutoHash + ExactEq, V> View for IntoParIter<K, V> {
    type V = Map<K, V>;

    closed spec fn view(&self) -> Map<K, V> {
        self.map@
    }
}

impl<K: AutoHash + ExactEq, V> IntoParIter<K, V> {
    /// The owned entries, one per key of the consumed map.
    pub fn into_vec(self) -> (r: Vec<(K, V)>)
        ensures
            r@.len() == self@.dom().len(),
            forall|t: int|
                0 <= t < r@.len() ==> self@.contains_key((#[trigger] r@[t]).0) && self@[r@[t].0]
                    == r@[t].1,
            forall|k: K|
                self@.contains_key(k) ==> exists|t: int|
                    0 <= t < r@.len() && (#[trigger] r@[t]).0 == k,
            forall|t1: int, t2: int| 0 <= t1 < t2 < r@.len() ==> r@[t1].0 != r@[t2].0,
    {
        let mut m = self.map;
        m.drain()
    }
}

/// An eagerly drained batch over a map's entries: building it moves every
/// entry out of the map at once, keeping the map's allocation for reuse.
///
/// Created by [`AutoHashMap::par_drain`]; consumed with
/// [`into_vec`](Self::into_vec).
pub struct ParDrain<K: AutoHash + ExactEq, V> {
    pairs: Vec<(K, V)>,
}

impl<K: AutoHash + ExactEq, V> View for ParDrain<K, V> {
    type V = Seq<(K, V)>;

    closed spec fn view(&self) -> Seq<(K, V)> {
        self.pairs@
    }
}

impl<K: AutoHash + ExactEq, V> ParDrain<K, V> {
    /// The drained entries.
    pub fn into_vec(self) -> (r: Vec<(K, V)>)
        ensures
            r@ == self@,
    {
        self.pairs
    }
}

impl<K: AutoHash + ExactEq, V> AutoHashMap<K, V> {
    /// Hand out (potentially to parallel workers) the borrowed keys.
    pub fn par_keys<'a>(&'a self) -> (r: ParKeys<'a, K, V>)
        ensures
            r@ == self@,
    {
        ParKeys { map: self }
    }

    /// Hand out (potentially to parallel workers) the borrowed values.
    pub fn par_values<'a>(&'a self) -> (r: ParValues<'a, K, V>)
        ensures
            r@ == self@,
    {
        ParValues { map: self }
    }

    /// Hand out (potentially to parallel workers) the borrowed entries.
    pub fn into_par_entries<'a>(&'a self) -> (r: ParIter<'a, K, V>)
        ensures
            r@ == self@,
    {
        ParIter { map: self }
    }

    /// Consume the map into an owned batch of its entries.
    pub fn into_par_iter(self) -> (r: IntoParIter<K, V>)
        ensures
            r@ == self@,
    {
        IntoParIter { map: self }
    }

    /// Drain the map into an owned batch of its entries, keeping the map's
    /// allocation for reuse.
    pub fn par_drain(&mut self) -> (r: ParDrain<K, V>)
        ensures
            final(self)@ == Map::<K, V>::empty(),
            final(self).spec_capacity() == old(self).spec_capacity(),
            r@ == old(self).spec_entries(),
            r@.len() == old(self)@.dom().len(),
            forall|t: int|
                0 <= t < r@.len() ==> old(self)@.contains_key((#[trigger] r@[t]).0)
                    && old(self)@[r@[t].0] == r@[t].1,
            forall|k: K|
                old(self)@.contains_key(k) ==> exists|t: int|
                    0 <= t < r@.len() && (#[trigger] r@[t]).0 == k,
    {
        let pairs = self.drain();
        ParDrain { pairs }
    }
}

impl<K: AutoHash + ExactEq, V> AutoHashMap<K, V> {
    /// Rewrite every value through `f`, keeping the key set.
    ///
    /// This is the mutable-value iteration entry point in the shape Verus can
    /// check: instead of handing out `&mut` references, the entries are
    /// drained, transformed one by one, and inserted back. Each new value is
    /// related to the old one by whatever `f`'s own contract promises.
    pub fn par_values_mut<F: Fn(V) -> V>(&mut self, f: &F)
        requires
            old(self)@.dom().len() <= MAX_KEYS,
            forall|v: V| #[trigger] call_requires(*f, (v,)),
        ensures
            final(self)@.dom() =~= old(self)@.dom(),
            forall|k: K| #[trigger]
                old(self)@.contains_key(k) ==> call_ensures(*f, (old(self)@[k],), final(self)@[k]),
    {
        let ghost m0 = self@;
        let pairs = self.drain();
        let ghost orig = pairs@;
        let mut rest = pairs;
        let mut i: usize = 0;
        while rest.len() > 0
            invariant
                orig.len() == m0.dom().len(),
                orig.len() <= MAX_KEYS,
                forall|t: int|
                    0 <= t < orig.len() ==> m0.contains_key((#[trigger] orig[t]).0)
                        && m0[orig[t].0] == orig[t].1,
                forall|t1: int, t2: int| 0 <= t1 < t2 < orig.len() ==> orig[t1].0 != orig[t2].0,
                forall|k: K|
                    m0.contains_key(k) ==> exists|t: int|
                        0 <= t < orig.len() && (#[trigger] orig[t]).0 == k,
                i as int + rest@.len() == orig.len(),
                rest@ =~= orig.skip(i as int),
                self@.dom().finite(),
                self@.dom().len() == i as int,
                forall|k: K| #[trigger]
                    self@.contains_key(k) ==> exists|t: int|
                        0 <= t < i as int && (#[trigger] orig[t]).0 == k,
                forall|t: int|
                    0 <= t < i as int ==> self@.contains_key((#[trigger] orig[t]).0)
                        && call_ensures(*f, (orig[t].1,), self@[orig[t].0]),
                forall|v: V| #[trigger] call_requires(*f, (v,)),
            decreases rest@.len(),
        {
            proof {
                assert(rest@[0] == orig[i as int]);
                assert(!self@.contains_key(orig[i as int].0)) by {
                    if self@.contains_key(orig[i as int].0) {
                        let t = choose|t: int|
                            0 <= t < i as int && (#[trigger] orig[t]).0 == orig[i as int].0;
                    }
                }
            }
            let p = rest.remove(0);
            let w = f(p.1);
            self.insert(p.0, w);
            proof {
                assert(rest@ =~= orig.skip(i as int + 1));
            }
            i = i + 1;
        }
        proof {
            assert forall|k: K| #[trigger] old(self)@.contains_key(k) implies self@.contains_key(k)
                && call_ensures(*f, (old(self)@[k],), self@[k]) by {
                let t = choose|t: int| 0 <= t < orig.len() && (#[trigger] orig[t]).0 == k;
                assert(self@.contains_key(orig[t].0));
            }
            assert(self@.dom() =~= old(self)@.dom());
        }
    }
}

impl<K: AutoHash + ExactEq, V: ExactEq> AutoHashMap<K, V> {
    /// Whether the two maps hold the same keys mapped to the same values.
    ///
    /// The check is "equal lengths, and every entry of `self` looks up to an
    /// equal value in `other`", a formulation whose entry checks are
    /// independent and so can be handed out in parallel.
    pub fn par_eq(&self, other: &Self) -> (r: bool)
        ensures
            r <==> self@ == other@,
    {
        let n = self.len();
        if n != other.len() {
            proof {
                if self@ == other@ {
                    assert(self@.dom() == other@.dom());
                }
            }
            return false;
        }
        let pairs = self.iter();
        let m = pairs.len();
        let mut i: usize = 0;
        while i < m
            invariant
                0 <= i <= m,
                m as int == pairs@.len(),
                pairs@.len() == self@.dom().len(),
                forall|t: int|
                    0 <= t < pairs@.len() ==> self@.contains_key(*(#[trigger] pairs@[t]).0)
                        && self@[*pairs@[t].0] == *pairs@[t].1,
                forall|k: K|
                    self@.contains_key(k) ==> exists|t: int|
                        0 <= t < pairs@.len() && *(#[trigger] pairs@[t]).0 == k,
                forall|t: int|
                    0 <= t < i as int ==> other@.contains_key(*(#[trigger] pairs@[t]).0)
                        && other@[*pairs@[t].0] == *pairs@[t].1,
            decreases m - i,
        {
            let p = pairs[i];
            match other.get(p.0) {
                Some(w) => {
                    if !p.1.exact_eq(w) {
                        proof {
                            assert(self@[*p.0] != other@[*p.0]);
                        }
                        return false;
                    }
                },
                None => {
                    return false;
                },
            }
            i = i + 1;
        }
        let ghost ds = self@.dom();
        let ghost dother = other@.dom();
        proof {
            assert forall|k: K| #[trigger]
                self@.contains_key(k) implies other@.contains_key(k) && other@[k] == self@[k] by {
                let t = choose|t: int| 0 <= t < pairs@.len() && *(#[trigger] pairs@[t]).0 == k;
                assert(other@.contains_key(*pairs@[t].0));
            }
            assert forall|k: K| #[trigger] other@.contains_key(k) implies self@.contains_key(
                k,
            ) by {
                if !self@.contains_key(k) {
                    assert(ds.subset_of(dother));
                    ds.lemma_subset_not_in_lt(dother, k);
                }
            }
            assert(self@ =~= other@);
        }
        true
    }
}

} // verus!
