//! Simple wrappers that implement `AutoHash`.
//!
//! Each wrapper realizes one strategy for obtaining a key's hash: the value
//! already is its hash (`U64Hash`), the hash is recomputed from the value on
//! every call (`AutoHashed`), computed once and cached (`MemoHashed`), or
//! supplied ready-made by the caller (`RawHashed`).

use vstd::prelude::*;

use crate::AutoHash;
use crate::ExactEq;
use core::hash::Hasher;
use std::collections::hash_map::DefaultHasher;
use vstd::std_specs::hash::DefaultHasherAdditionalSpecFns;

verus! {

/// A value that can feed itself to the standard hasher.
///
/// `hash_writes` is the sequence of byte chunks the value writes; `feed_hash`
/// is proved to write exactly those. Two equal values therefore make the
/// hasher end in the same state, which is what the hashing wrappers build on.
pub trait Hashable: Sized {
    /// The chunks of bytes this value writes into a hasher.
    spec fn hash_writes(&self) -> Seq<Seq<u8>>;

    /// Write this value's bytes into `state`.
    fn feed_hash(&self, state: &mut DefaultHasher)
        ensures
            final(state)@ == old(state)@ + self.hash_writes(),
    ;
}

impl Hashable for u64 {
    open spec fn hash_writes(&self) -> Seq<Seq<u8>> {
        seq![
            seq![
                (*self & 0xff) as u8,
                ((*self >> 8) & 0xff) as u8,
                ((*self >> 16) & 0xff) as u8,
                ((*self >> 24) & 0xff) as u8,
                ((*self >> 32) & 0xff) as u8,
                ((*self >> 40) & 0xff) as u8,
                ((*self >> 48) & 0xff) as u8,
                ((*self >> 56) & 0xff) as u8,
            ],
        ]
    }

    fn feed_hash(&self, state: &mut DefaultHasher) {
        let x = *self;
        let mut b: Vec<u8> = Vec::new();
        b.push((x & 0xff) as u8);
        b.push(((x >> 8) & 0xff) as u8);
        b.push(((x >> 16) & 0xff) as u8);
        b.push(((x >> 24) & 0xff) as u8);
        b.push(((x >> 32) & 0xff) as u8);
        b.push(((x >> 40) & 0xff) as u8);
        b.push(((x >> 48) & 0xff) as u8);
        b.push(((x >> 56) & 0xff) as u8);
        proof {
            assert(b@ =~= self.hash_writes()[0]);
        }
        state.write(b.as_slice());
        proof {
            assert(old(state)@.push(b@) =~= old(state)@ + self.hash_writes());
        }
    }
}

impl Hashable for u32 {
    open spec fn hash_writes(&self) -> Seq<Seq<u8>> {
        seq![
            seq![
                (*self & 0xff) as u8,
                ((*self >> 8) & 0xff) as u8,
                ((*self >> 16) & 0xff) as u8,
                ((*self >> 24) & 0xff) as u8,
            ],
        ]
    }

    fn feed_hash(&self, state: &mut DefaultHasher) {
        let x = *self;
        let mut b: Vec<u8> = Vec::new();
        b.push((x & 0xff) as u8);
        b.push(((x >> 8) & 0xff) as u8);
        b.push(((x >> 16) & 0xff) as u8);
        b.push(((x >> 24) & 0xff) as u8);
        proof {
            assert(b@ =~= self.hash_writes()[0]);
        }
        state.write(b.as_slice());
        proof {
            assert(old(state)@.push(b@) =~= old(state)@ + self.hash_writes());
        }
    }
}

/// A wrapper for an existing `u64` hash value.
///
/// This is the simplest key type that knows its own hash: the value is used
/// as the hash directly, with no hashing at all.
#[derive(Clone, Copy, PartialEq, Eq, Structural, Debug)]
pub struct U64Hash(pub u64);

impl AutoHash for U64Hash {
    open spec fn hash_spec(&self) -> u64 {
        self.0
    }

    fn get_hash(&self) -> (h: u64) {
        self.0
    }
}

impl ExactEq for U64Hash {
    fn exact_eq(&self, other: &Self) -> (r: bool) {
        self.0 == other.0
    }
}

/// A wrapper that hashes its value with the standard hasher on every call.
///
/// The hash is recomputed from the value each time `get_hash` is asked for
/// it; nothing is cached. Equal values give equal hashes because the hash is
/// proved to be a function of the bytes the value writes.
pub struct AutoHashed<T> {
    /// The wrapped value
    pub value: T,
}

impl<T: Hashable> AutoHashed<T> {
    /// Wrap a value; its hash will be recomputed on every use.
    pub fn from(value: T) -> (r: Self)
        ensures
            r.value == value,
    {
        AutoHashed { value }
    }
}

impl<T: Hashable> AutoHash for AutoHashed<T> {
    open spec fn hash_spec(&self) -> u64 {
        DefaultHasher::spec_finish(self.value.hash_writes())
    }

    fn get_hash(&self) -> (h: u64) {
        let mut state = DefaultHasher::new();
        self.value.feed_hash(&mut state);
        proof {
            assert(Seq::<Seq<u8>>::empty() + self.value.hash_writes() =~= self.value.hash_writes());
        }
        state.finish()
    }
}

impl<T: Hashable + ExactEq> ExactEq for AutoHashed<T> {
    fn exact_eq(&self, other: &Self) -> (r: bool) {
        self.value.exact_eq(&other.value)
    }
}

impl<T: Clone> Clone for AutoHashed<T> {
    fn clone(&self) -> (r: Self)
        ensures
            vstd::pervasive::cloned::<T>(self.value, r.value),
    {
        AutoHashed { value: self.value.clone() }
    }
}

impl<T: Copy> Copy for AutoHashed<T> {

}

/// A wrapper that caches the hash of its value.
///
/// The hash is computed with the standard hasher once, when the value is
/// wrapped, and stored beside it; `get_hash` just reads the cache. The
/// constructor is the only way to build one, so the cache always matches the
/// value (`memo_consistent`).
pub struct MemoHashed<T> {
    value: T,
    hash: u64,
}

impl<T> MemoHashed<T> {
    /// The wrapped value, as a spec-level observer.
    pub closed spec fn value_spec(&self) -> T {
        self.value
    }

    /// Borrow the wrapped value.
    pub fn value(&self) -> (r: &T)
        ensures
            *r == self.value_spec(),
    {
        &self.value
    }
}

impl<T: Hashable> MemoHashed<T> {
    /// The cached hash is the standard hash of the wrapped value: the
    /// wrapper's `hash_spec` equals `DefaultHasher::spec_finish` of the
    /// value's `hash_writes`.
    pub closed spec fn memo_consistent(&self) -> bool {
        self.hash_spec() == DefaultHasher::spec_finish(self.value.hash_writes())
    }

    /// Wrap a value, computing and caching its hash now.
    pub fn from(value: T) -> (r: Self)
        ensures
            r.value_spec() == value,
            r.memo_consistent(),
    {
        let mut state = DefaultHasher::new();
        value.feed_hash(&mut state);
        proof {
            assert(Seq::<Seq<u8>>::empty() + value.hash_writes() =~= value.hash_writes());
        }
        let h = state.finish();
        MemoHashed { value, hash: h }
    }
}

impl<T> AutoHash for MemoHashed<T> {
    closed spec fn hash_spec(&self) -> u64 {
        self.hash
    }

    fn get_hash(&self) -> (h: u64) {
        self.hash
    }
}

impl<T: ExactEq> ExactEq for MemoHashed<T> {
    fn exact_eq(&self, other: &Self) -> (r: bool) {
        self.hash == other.hash && self.value.exact_eq(&other.value)
    }
}

impl<T: Clone> Clone for MemoHashed<T> {
    fn clone(&self) -> (r: Self)
        ensures
            vstd::pervasive::cloned::<T>(self.value_spec(), r.value_spec()),
            r.hash_spec() == self.hash_spec(),
    {
        MemoHashed { value: self.value.clone(), hash: self.hash }
    }
}

impl<T: Copy> Copy for MemoHashed<T> {

}

/// A wrapper that uses a hash provided by the caller.
///
/// The raw hash is still required to uphold the contract that equal values
/// carry equal hashes. Two wrappers whose values are equal but whose supplied
/// hashes differ are treated as different keys, so a broken promise degrades
/// lookups instead of corrupting the table.
pub struct RawHashed<T> {
    value: T,
    hash: u64,
}

impl<T> RawHashed<T> {
    /// The wrapped value, as a spec-level observer.
    pub closed spec fn value_spec(&self) -> T {
        self.value
    }

    /// Borrow the wrapped value.
    pub fn value(&self) -> (r: &T)
        ensures
            *r == self.value_spec(),
    {
        &self.value
    }

    /// Pairs a value with its raw hash.
    pub fn new(hash: u64, value: T) -> (r: Self)
        ensures
            r.value_spec() == value,
            r.hash_spec() == hash,
    {
        RawHashed { hash, value }
    }
}

impl<T> AutoHash for RawHashed<T> {
    closed spec fn hash_spec(&self) -> u64 {
        self.hash
    }

    fn get_hash(&self) -> (h: u64) {
        self.hash
    }
}

impl<T: ExactEq> ExactEq for RawHashed<T> {
    fn exact_eq(&self, other: &Self) -> (r: bool) {
        self.hash == other.hash && self.value.exact_eq(&other.value)
    }
}

impl<T: Clone> Clone for RawHashed<T> {
    fn clone(&self) -> (r: Self)
        ensures
            vstd::pervasive::cloned::<T>(self.value_spec(), r.value_spec()),
            r.hash_spec() == self.hash_spec(),
    {
        RawHashed { value: self.value.clone(), hash: self.hash }
    }
}

impl<T: Copy> Copy for RawHashed<T> {

}

/// Hash-strategy agreement law: for one value, the recompute-every-time
/// wrapper and the compute-once-and-cache wrapper report the same hash, since
/// both are the standard hash of the value's written bytes. With `get_hash`
/// pinned to `hash_spec`, the executable calls agree as well.
pub proof fn lemma_strategy_agreement<T: Hashable>(e: AutoHashed<T>, m: MemoHashed<T>)
    requires
        m.memo_consistent(),
        e.value == m.value_spec(),
    ensures
        e.hash_spec() == m.hash_spec(),
{
}

} // verus!
