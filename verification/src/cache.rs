//! The [`Cache`] trait: the common contract every cache type implements.

use vstd::prelude::*;
use core::hash::Hash;

verus! {

/// The common read / write / evict contract every cache type implements.
///
/// - `get` is an **access**: it may update the eviction order.
/// - `contains_key` is a **query**: it leaves the eviction order alone.
/// - `insert` is an access on the inserted key and may evict.
/// - `remove` is destructive and does not update order.
///
/// Every operation keeps the capacity invariant: `load() <= bound()`, where the
/// load is the entry count (or total weight for a weight-bounded cache).
pub trait Cache<K, V>: Sized where K: Eq + Hash, V: Clone {
    /// Well-formedness of the cache.
    spec fn inv(&self) -> bool;

    /// What an access (`get`, `insert`) needs: well-formedness, plus room in
    /// any internal counters.
    spec fn ready(&self) -> bool;

    /// Number of stored entries.
    spec fn entries(&self) -> nat;

    /// Quantity bounded by the capacity: entries, or total weight.
    spec fn load(&self) -> nat;

    /// The configured capacity.
    spec fn bound(&self) -> nat;

    /// A well-formed cache is within its capacity.
    proof fn lemma_inv(&self)
        requires
            self.inv(),
        ensures
            self.load() <= self.bound(),
    ;

    /// A cache ready for an access is well formed.
    proof fn lemma_ready(&self)
        requires
            self.ready(),
        ensures
            self.inv(),
    ;

    /// Returns the value associated with `key`, if any; counts as an access.
    fn get(&mut self, key: &K) -> (r: Option<V>)
        requires
            old(self).ready(),
        ensures
            final(self).inv(),
            final(self).bound() == old(self).bound(),
    ;

    /// Inserts `value` under `key`, returning the previously-stored value if
    /// `key` was present. May evict to make room.
    fn insert(&mut self, key: K, value: V) -> (r: Option<V>)
        requires
            old(self).ready(),
        ensures
            final(self).inv(),
            final(self).bound() == old(self).bound(),
    ;

    /// Removes the entry for `key` and returns its value if present.
    fn remove(&mut self, key: &K) -> (r: Option<V>)
        requires
            old(self).inv(),
        ensures
            final(self).inv(),
            final(self).bound() == old(self).bound(),
    ;

    /// Whether the cache holds an entry for `key`; not an access.
    fn contains_key(&mut self, key: &K) -> (r: bool)
        requires
            old(self).inv(),
        ensures
            final(self).inv(),
            final(self).bound() == old(self).bound(),
    ;

    /// Number of entries currently stored; a cache that drops stale entries
    /// on the way may shrink, never grow.
    fn len(&mut self) -> (r: usize)
        requires
            old(self).inv(),
        ensures
            final(self).inv(),
            final(self).bound() == old(self).bound(),
            final(self).entries() <= old(self).entries(),
            r == final(self).entries(),
    ;

    /// Whether the cache holds no entries.
    fn is_empty(&mut self) -> (r: bool)
        requires
            old(self).inv(),
        ensures
            final(self).inv(),
            final(self).bound() == old(self).bound(),
            final(self).entries() <= old(self).entries(),
            r == (final(self).entries() == 0),
    {
        self.len() == 0
    }

    /// Removes every entry; the capacity is preserved.
    fn clear(&mut self)
        requires
            old(self).inv(),
        ensures
            final(self).inv(),
            final(self).bound() == old(self).bound(),
            final(self).entries() == 0,
    ;

    /// The configured capacity bound.
    fn capacity(&self) -> (r: usize)
        requires
            self.inv(),
        ensures
            r == self.bound(),
    ;
}

} // verus!
