//! Hash maps and sets whose keys supply their own hash value.
//!
//! Keys implement the [`AutoHash`] trait to report a 64-bit hash directly,
//! instead of being run through a generic hasher on every lookup. This suits
//! types that are already hash-like, that carry a precomputed hash, or that
//! want full control over how their hash is obtained.
//!
//! The containers are [`AutoHashMap`](map::AutoHashMap) and
//! [`AutoHashSet`](set::AutoHashSet), built on an open-addressing table with
//! tombstone deletion and a 7/8 maximum load factor. Example key types for the
//! usual hashing strategies live in the [`wrappers`] module.

use vstd::prelude::*;

mod table;

pub mod map;
pub mod par;
pub mod set;
pub mod size_hint;
pub mod wrappers;

pub use crate::map::AutoHashMap;
pub use crate::map::TryReserveError;
pub use crate::set::AutoHashSet;

verus! {

/// Upper bound on the number of keys a single table accepts.
///
/// Growth doubles the slot array relative to the live-entry count, so keeping
/// the entry count below this bound keeps every capacity computation inside
/// `usize` on any machine. The bound is far beyond what memory can hold.
pub const MAX_KEYS: usize = usize::MAX / 64;

/// A self-hashed type.
///
/// Types implementing `AutoHash` are able to return their hash value
/// independently, without a hasher being supplied from outside.
///
/// The logical hash is the spec function `hash_spec`, a function of the
/// value alone. Because of that, the classic hash contract — equal values
/// report equal hashes — holds by construction: two keys that are equal as
/// values have the same `hash_spec`, and `get_hash` is proved to return it.
pub trait AutoHash: Sized {
    /// The hash of this value, as a mathematical function of the value.
    spec fn hash_spec(&self) -> u64;

    /// Return the hash for this value.
    fn get_hash(&self) -> (h: u64)
        ensures
            h == self.hash_spec(),
    ;
}

/// Executable equality that coincides exactly with logical equality.
///
/// The containers compare keys with `exact_eq`; its contract pins the result
/// to spec-level equality, which is what the map and set views are keyed by.
pub trait ExactEq: Sized {
    /// Decide whether `self` and `other` are equal as values.
    fn exact_eq(&self, other: &Self) -> (r: bool)
        ensures
            r == (self == other),
    ;
}

impl ExactEq for u8 {
    fn exact_eq(&self, other: &Self) -> (r: bool) {
        *self == *other
    }
}

impl ExactEq for u16 {
    fn exact_eq(&self, other: &Self) -> (r: bool) {
        *self == *other
    }
}

impl ExactEq for u32 {
    fn exact_eq(&self, other: &Self) -> (r: bool) {
        *self == *other
    }
}

impl ExactEq for u64 {
    fn exact_eq(&self, other: &Self) -> (r: bool) {
        *self == *other
    }
}

impl ExactEq for usize {
    fn exact_eq(&self, other: &Self) -> (r: bool) {
        *self == *other
    }
}

impl ExactEq for i32 {
    fn exact_eq(&self, other: &Self) -> (r: bool) {
        *self == *other
    }
}

impl ExactEq for i64 {
    fn exact_eq(&self, other: &Self) -> (r: bool) {
        *self == *other
    }
}

impl ExactEq for bool {
    fn exact_eq(&self, other: &Self) -> (r: bool) {
        *self == *other
    }
}

// The forwarding impls below match the standard library's `Borrow`
// forwarding: a key reached through a reference or an owning pointer reports
// the underlying value's hash.
impl<T: AutoHash> AutoHash for &T {
    open spec fn hash_spec(&self) -> u64 {
        (**self).hash_spec()
    }

    fn get_hash(&self) -> (h: u64) {
        (**self).get_hash()
    }
}

impl<T: ExactEq> ExactEq for &T {
    fn exact_eq(&self, other: &Self) -> (r: bool) {
        (**self).exact_eq(*other)
    }
}

impl<T: AutoHash> AutoHash for Box<T> {
    open spec fn hash_spec(&self) -> u64 {
        (**self).hash_spec()
    }

    fn get_hash(&self) -> (h: u64) {
        (**self).get_hash()
    }
}

impl<T: ExactEq> ExactEq for Box<T> {
    fn exact_eq(&self, other: &Self) -> (r: bool) {
        (**self).exact_eq(&**other)
    }
}

impl<T: AutoHash> AutoHash for std::rc::Rc<T> {
    open spec fn hash_spec(&self) -> u64 {
        (**self).hash_spec()
    }

    fn get_hash(&self) -> (h: u64) {
        (**self).get_hash()
    }
}

impl<T: AutoHash> AutoHash for std::sync::Arc<T> {
    open spec fn hash_spec(&self) -> u64 {
        (**self).hash_spec()
    }

    fn get_hash(&self) -> (h: u64) {
        (**self).get_hash()
    }
}

} // verus!
