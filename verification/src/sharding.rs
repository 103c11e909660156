//! Splitting a cache into independent shards routed by key hash.
//!
//! Small caches (below `2 * MIN_PER_SHARD` entries) use a single shard and so
//! keep strict global eviction order; larger ones use up to `DEFAULT_SHARDS`
//! shards, each with `capacity / shards` entries of room.

use vstd::prelude::*;
use core::hash::Hash;
use crate::hashing::{hash_key, is_digest};
use vstd::std_specs::iter::IteratorSpec;

verus! {

/// Largest number of shards.
pub const DEFAULT_SHARDS: usize = 16;

/// Smallest per-shard capacity worth sharding for.
pub const MIN_PER_SHARD: usize = 16;

/// Whether `n` is a power of two.
pub open spec fn is_pow2(n: nat) -> bool
    decreases n,
{
    if n == 1 {
        true
    } else if n == 0 || n % 2 == 1 {
        false
    } else {
        is_pow2(n / 2)
    }
}

/// Number of shards for a cache of `capacity` entries: one below 32 entries,
/// then the largest power of two that leaves at least 16 entries per shard,
/// capped at 16 shards.
pub open spec fn shard_count_spec(capacity: nat) -> nat {
    if capacity < 32 {
        1
    } else if capacity < 64 {
        2
    } else if capacity < 128 {
        4
    } else if capacity < 256 {
        8
    } else {
        16
    }
}

/// Per-shard capacity: the floor of `capacity / num_shards`, at least one.
pub open spec fn per_shard_spec(capacity: nat, num_shards: nat) -> nat {
    if capacity / num_shards >= 1 {
        capacity / num_shards
    } else {
        1
    }
}

/// Picks the shard count for a cache of the given capacity.
pub fn shard_count(capacity: usize) -> (r: usize)
    ensures
        r == shard_count_spec(capacity as nat),
        1 <= r <= DEFAULT_SHARDS,
        is_pow2(r as nat),
{
    if capacity < MIN_PER_SHARD * 2 {
        return 1;
    }
    let max_by_cap = capacity / MIN_PER_SHARD;
    let mut shards: usize = 1;
    while shards * 2 <= max_by_cap && shards * 2 <= DEFAULT_SHARDS
        invariant
            max_by_cap == capacity / 16,
            capacity >= 32,
            shards == 1 || shards == 2 || shards == 4 || shards == 8 || shards == 16,
            shards <= max_by_cap,
        decreases DEFAULT_SHARDS - shards,
    {
        shards = shards * 2;
    }
    proof {
        reveal_with_fuel(is_pow2, 6);
    }
    shards
}

/// Per-shard capacity: floor division of the total, never zero.
pub fn per_shard_capacity(capacity: usize, num_shards: usize) -> (r: usize)
    requires
        num_shards > 0,
    ensures
        r == per_shard_spec(capacity as nat, num_shards as nat),
        r >= 1,
{
    let per = capacity / num_shards;
    if per >= 1 {
        per
    } else {
        1
    }
}

/// A fixed set of independent shards, routed by key hash.
pub struct Sharded<T> {
    shards: Vec<T>,
    /// `shards.len() - 1`; the shard count is a power of two.
    shard_mask: usize,
}

impl<T> View for Sharded<T> {
    type V = Seq<T>;

    closed spec fn view(&self) -> Seq<T> {
        self.shards@
    }
}

impl<T> Sharded<T> {
    /// The shard count is a positive power of two and the mask is one less.
    pub closed spec fn wf(&self) -> bool {
        &&& self.shards@.len() >= 1
        &&& is_pow2(self.shards@.len())
        &&& self.shard_mask == self.shards@.len() - 1
    }

    /// Builds `num_shards` shards, the `i`-th by `factory(i)`.
    pub fn from_factory<F: Fn(usize) -> T>(num_shards: usize, factory: F) -> (r: Self)
        requires
            num_shards >= 1,
            is_pow2(num_shards as nat),
            forall|i: usize| i < num_shards ==> call_requires(factory, (i,)),
        ensures
            r.wf(),
            r@.len() == num_shards,
            forall|i: int| 0 <= i < num_shards ==> call_ensures(factory, (i as usize,), #[trigger] r@[i]),
    {
        let mut shards: Vec<T> = Vec::new();
        let mut i: usize = 0;
        while i < num_shards
            invariant
                i <= num_shards,
                shards@.len() == i,
                forall|j: usize| j < num_shards ==> call_requires(factory, (j,)),
                forall|j: int| 0 <= j < i ==> call_ensures(factory, (j as usize,), #[trigger] shards@[j]),
            decreases num_shards - i,
        {
            shards.push(factory(i));
            i = i + 1;
        }
        Sharded { shards, shard_mask: num_shards - 1 }
    }

    /// Number of shards.
    pub fn len(&self) -> (r: usize)
        ensures
            r == self@.len(),
    {
        self.shards.len()
    }

    /// Index of the shard that `key` routes to.
    pub fn shard_index<K: Hash>(&self, key: &K) -> (r: usize)
        requires
            self.wf(),
        ensures
            r < self@.len(),
            self@.len() == 1 ==> r == 0,
            exists|h: u64| is_digest(h) && r == (h as usize) & ((self@.len() - 1) as usize),
    {
        let d = hash_key(key);
        let h = d as usize;
        let mask = self.shard_mask;
        let r = h & mask;
        assert(is_digest(d) && r == (d as usize) & ((self@.len() - 1) as usize));
        assert(r <= mask) by (bit_vector)
            requires
                r == h & mask,
        ;
        r
    }

    /// The shard that `key` routes to.
    pub fn shard_for<K: Hash>(&self, key: &K) -> (r: &T)
        requires
            self.wf(),
        ensures
            exists|i: int| 0 <= i < self@.len() && *r == self@[i],
    {
        let i = self.shard_index(key);
        &self.shards[i]
    }

    /// The `i`-th shard.
    pub fn shard(&self, i: usize) -> (r: &T)
        requires
            i < self@.len(),
        ensures
            *r == self@[i as int],
    {
        &self.shards[i]
    }

    /// Mutable access to the `i`-th shard.
    pub fn shard_mut(&mut self, i: usize) -> (r: &mut T)
        requires
            i < old(self)@.len(),
        ensures
            *r == old(self)@[i as int],
            final(self)@ == old(self)@.update(i as int, *final(r)),
            old(self).wf() ==> final(self).wf(),
    {
        &mut self.shards[i]
    }

    /// Iterator over every shard, in index order.
    pub fn iter(&self) -> (r: std::slice::Iter<'_, T>)
        ensures
            r.remaining() == self@.as_ref(),
    {
        self.shards.as_slice().iter()
    }
}

/// Sum of a sequence of naturals.
pub open spec fn sum_of(s: Seq<nat>) -> nat
    decreases s.len(),
{
    if s.len() == 0 {
        0
    } else {
        sum_of(s.drop_last()) + s.last()
    }
}

/// A sum of terms each at most `per` is at most `len * per`.
pub proof fn lemma_sum_bound(s: Seq<nat>, per: nat)
    requires
        forall|i: int| 0 <= i < s.len() ==> #[trigger] s[i] <= per,
    ensures
        sum_of(s) <= s.len() * per,
    decreases s.len(),
{
    if s.len() > 0 {
        lemma_sum_bound(s.drop_last(), per);
        assert(sum_of(s) <= (s.len() - 1) * per + per);
        assert((s.len() - 1) * per + per == s.len() * per) by (nonlinear_arith);
    }
}

/// A sum of zeros is zero.
pub proof fn lemma_sum_zero(s: Seq<nat>)
    requires
        forall|i: int| 0 <= i < s.len() ==> #[trigger] s[i] == 0,
    ensures
        sum_of(s) == 0,
    decreases s.len(),
{
    if s.len() > 0 {
        lemma_sum_zero(s.drop_last());
    }
}

/// The sum of a prefix extends term by term and never exceeds the whole sum.
pub proof fn lemma_sum_prefix(s: Seq<nat>, i: int)
    requires
        0 <= i < s.len(),
    ensures
        sum_of(s.take(i + 1)) == sum_of(s.take(i)) + s[i],
        sum_of(s.take(i + 1)) <= sum_of(s),
    decreases s.len() - i,
{
    assert(s.take(i + 1).drop_last() =~= s.take(i));
    if i + 1 < s.len() {
        lemma_sum_prefix(s, i + 1);
    } else {
        assert(s.take(i + 1) =~= s);
    }
}

/// With the shard count and per-shard capacity chosen as above, the shards
/// together never hold more than the configured capacity.
pub proof fn lemma_shards_fit(capacity: nat)
    requires
        capacity >= 1,
    ensures
        shard_count_spec(capacity) * per_shard_spec(capacity, shard_count_spec(capacity)) <= capacity,
        capacity >= 32 ==> per_shard_spec(capacity, shard_count_spec(capacity)) >= MIN_PER_SHARD,
{
    let n = shard_count_spec(capacity);
    if capacity >= 32 {
        assert(capacity >= 16 * n);
        assert(capacity / n >= 16) by (nonlinear_arith)
            requires
                capacity >= 16 * n,
                n >= 2,
        ;
        assert(n * (capacity / n) <= capacity) by (nonlinear_arith)
            requires
                n >= 2,
        ;
    }
}

/// `k` is a key of map `i` of `ms`.
pub open spec fn stored_at<K, V>(ms: Seq<Map<K, V>>, k: K, i: int) -> bool {
    0 <= i < ms.len() && ms[i].contains_key(k)
}

/// `k` is a key of some map of `ms`.
pub open spec fn held<K, V>(ms: Seq<Map<K, V>>, k: K) -> bool {
    exists|i: int| #[trigger] stored_at(ms, k, i)
}

/// Index of a map of `ms` that has `k` (meaningful when `k` is held).
pub open spec fn home_of<K, V>(ms: Seq<Map<K, V>>, k: K) -> int {
    choose|i: int| #[trigger] stored_at(ms, k, i)
}

/// The value of `k` in the map of `ms` that has it (meaningful when `k` is
/// held).
pub open spec fn value_at<K, V>(ms: Seq<Map<K, V>>, k: K) -> V {
    ms[home_of(ms, k)][k]
}

/// No key is in two maps of `ms`.
pub open spec fn apart<K, V>(ms: Seq<Map<K, V>>) -> bool {
    forall|k: K, i: int, j: int| #[trigger] stored_at(ms, k, i) && #[trigger] stored_at(ms, k, j) ==> i == j
}

/// In maps that are apart, a key in map `i` is held there with that value.
pub proof fn lemma_home<K, V>(ms: Seq<Map<K, V>>, k: K, i: int)
    requires
        apart(ms),
        stored_at(ms, k, i),
    ensures
        held(ms, k),
        home_of(ms, k) == i,
        value_at(ms, k) == ms[i][k],
{
    assert(stored_at(ms, k, home_of(ms, k)));
}

/// Replacing map `i` by `m2`, which gains no key but `k` and keeps the values
/// of the other keys it has, keeps the maps apart (if `k` is new there, it was
/// in no map) and changes no other key's value.
pub proof fn lemma_replace<K, V>(ms: Seq<Map<K, V>>, m2: Map<K, V>, i: int, k: K)
    requires
        apart(ms),
        0 <= i < ms.len(),
        forall|k2: K|
            k2 != k && #[trigger] m2.contains_key(k2) ==> ms[i].contains_key(k2) && m2[k2] == ms[i][k2],
        m2.contains_key(k) ==> ms[i].contains_key(k) || !held(ms, k),
    ensures
        apart(ms.update(i, m2)),
        forall|k2: K|
            k2 != k && #[trigger] held(ms.update(i, m2), k2) ==> held(ms, k2) && value_at(ms.update(i, m2), k2)
                == value_at(ms, k2),
        m2.contains_key(k) ==> held(ms.update(i, m2), k) && value_at(ms.update(i, m2), k) == m2[k],
        !m2.contains_key(k) && (ms[i].contains_key(k) || !held(ms, k)) ==> !held(ms.update(i, m2), k),
        (forall|k2: K| k2 != k && #[trigger] ms[i].contains_key(k2) ==> m2.contains_key(k2)) ==> (forall|
            k2: K,
        |
            k2 != k ==> (#[trigger] held(ms.update(i, m2), k2) == held(ms, k2))),
{
    let ns = ms.update(i, m2);
    assert forall|k2: K, a: int, b: int|
        #[trigger] stored_at(ns, k2, a) && #[trigger] stored_at(ns, k2, b) implies a == b by {
        if a != i && b != i {
            assert(stored_at(ms, k2, a) && stored_at(ms, k2, b));
        } else if a == i && b != i {
            assert(stored_at(ms, k2, b));
            if k2 != k {
                assert(stored_at(ms, k2, a));
            } else if ms[i].contains_key(k) {
                assert(stored_at(ms, k2, i));
            } else {
                assert(held(ms, k2));
            }
        } else if a != i && b == i {
            assert(stored_at(ms, k2, a));
            if k2 != k {
                assert(stored_at(ms, k2, b));
            } else if ms[i].contains_key(k) {
                assert(stored_at(ms, k2, i));
            } else {
                assert(held(ms, k2));
            }
        }
    }
    assert forall|k2: K| k2 != k && #[trigger] held(ns, k2) implies held(ms, k2) && value_at(ns, k2)
        == value_at(ms, k2) by {
        let h = home_of(ns, k2);
        assert(stored_at(ns, k2, h));
        lemma_home(ns, k2, h);
        assert(stored_at(ms, k2, h));
        lemma_home(ms, k2, h);
    }
    if m2.contains_key(k) {
        assert(stored_at(ns, k, i));
        lemma_home(ns, k, i);
    }
    if !m2.contains_key(k) && (ms[i].contains_key(k) || !held(ms, k)) {
        if held(ns, k) {
            let h = home_of(ns, k);
            assert(stored_at(ns, k, h));
            assert(h != i);
            assert(stored_at(ms, k, h));
            if ms[i].contains_key(k) {
                assert(stored_at(ms, k, i));
            }
        }
    }
    if forall|k2: K| k2 != k && #[trigger] ms[i].contains_key(k2) ==> m2.contains_key(k2) {
        assert forall|k2: K| k2 != k implies (#[trigger] held(ns, k2) == held(ms, k2)) by {
            if held(ms, k2) {
                let h = home_of(ms, k2);
                assert(stored_at(ms, k2, h));
                assert(stored_at(ns, k2, h));
            }
        }
    }
}

} // verus!
