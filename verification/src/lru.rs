//! Least-Recently-Used (LRU) cache: sharded, arena-backed.

use vstd::prelude::*;
use core::hash::Hash;
use vstd::std_specs::hash::obeys_key_model;
use crate::cache::Cache;
use crate::error::CacheError;
use crate::recency::{RecencyList, seq_to_front, seq_without};
use crate::sharding::{
    Sharded,
    shard_count,
    per_shard_capacity,
    shard_count_spec,
    per_shard_spec,
    sum_of,
    lemma_sum_bound,
    lemma_sum_zero,
    lemma_sum_prefix,
    lemma_shards_fit,
    stored_at,
    held,
    home_of,
    value_at,
    apart,
    lemma_home,
    lemma_replace,
};
use crate::hashing::is_digest;

verus! {

/// One shard of an [`LruCache`]: a recency list bounded by a per-shard capacity.
pub struct LruShard<K, V> {
    capacity: usize,
    list: RecencyList<K, V>,
}

/// Keys after an insert of a key that is not yet present: the new key in
/// front, the least-recently-used key dropped when the shard is full.
pub open spec fn admit_keys<K>(keys: Seq<K>, cap: nat, k: K) -> Seq<K> {
    if keys.len() >= cap {
        seq![k] + keys.drop_last()
    } else {
        seq![k] + keys
    }
}

/// Contents after an insert of a key that is not yet present.
pub open spec fn admit_contents<K, V>(keys: Seq<K>, contents: Map<K, V>, cap: nat, k: K, v: V) -> Map<K, V> {
    if keys.len() >= cap {
        contents.remove(keys.last()).insert(k, v)
    } else {
        contents.insert(k, v)
    }
}

impl<K, V> LruShard<K, V> {
    /// Well-formed, with at most `cap()` entries.
    pub closed spec fn wf(&self) -> bool {
        &&& self.list.wf()
        &&& self.capacity > 0
        &&& self.list.keys().len() <= self.capacity
    }

    /// Keys from most- to least-recently used.
    pub closed spec fn keys(&self) -> Seq<K> {
        self.list.keys()
    }

    /// Stored values.
    pub closed spec fn contents(&self) -> Map<K, V> {
        self.list.contents()
    }

    /// Capacity of this shard.
    pub closed spec fn cap(&self) -> nat {
        self.capacity as nat
    }

    /// Facts every well-formed shard satisfies.
    pub proof fn lemma_wf(&self)
        requires
            self.wf(),
        ensures
            self.keys().no_duplicates(),
            self.keys().len() == self.contents().len(),
            forall|k: K| #[trigger] self.keys().contains(k) <==> self.contents().contains_key(k),
            self.keys().len() <= self.cap(),
            self.cap() > 0,
    {
        self.list.lemma_view();
    }
}

/// What `get` does to a shard: a hit moves the key to the front and returns a
/// clone of its value; a miss changes nothing.
pub open spec fn lru_get_step<K, V: Clone>(old: LruShard<K, V>, new: LruShard<K, V>, k: K, r: Option<V>) -> bool {
    &&& new.cap() == old.cap()
    &&& new.contents() == old.contents()
    &&& if old.contents().contains_key(k) {
        &&& r is Some
        &&& cloned(old.contents()[k], r->0)
        &&& new.keys() == seq_to_front(old.keys(), k)
    } else {
        &&& r is None
        &&& new.keys() == old.keys()
    }
}

/// What `insert` does to a shard: an existing key gets the new value, moves to
/// the front, and its old value is returned; a new key goes to the front,
/// evicting the least-recently-used key when the shard is full.
pub open spec fn lru_insert_step<K, V>(old: LruShard<K, V>, new: LruShard<K, V>, k: K, v: V, r: Option<V>) -> bool {
    &&& new.cap() == old.cap()
    &&& if old.contents().contains_key(k) {
        &&& r == Some(old.contents()[k])
        &&& new.keys() == seq_to_front(old.keys(), k)
        &&& new.contents() == old.contents().insert(k, v)
    } else {
        &&& r is None
        &&& new.keys() == admit_keys(old.keys(), old.cap(), k)
        &&& new.contents() == admit_contents(old.keys(), old.contents(), old.cap(), k, v)
    }
}

/// What `remove` does to a shard.
pub open spec fn lru_remove_step<K, V>(old: LruShard<K, V>, new: LruShard<K, V>, k: K, r: Option<V>) -> bool {
    &&& new.cap() == old.cap()
    &&& r == (if old.contents().contains_key(k) {
        Some(old.contents()[k])
    } else {
        None::<V>
    })
    &&& new.keys() == seq_without(old.keys(), k)
    &&& new.contents() == old.contents().remove(k)
}

impl<K: Copy + Eq + Hash, V: Clone> LruShard<K, V> {
    /// An empty shard of the given capacity.
    pub fn with_capacity(capacity: usize) -> (r: Self)
        requires
            capacity > 0,
            obeys_key_model::<K>(),
        ensures
            r.wf(),
            r.cap() == capacity,
            r.keys() == Seq::<K>::empty(),
            r.contents() == Map::<K, V>::empty(),
    {
        LruShard { capacity, list: RecencyList::new(capacity) }
    }

    /// Looks `key` up; a hit promotes it to most-recently-used.
    pub fn get(&mut self, key: &K) -> (r: Option<V>)
        requires
            old(self).wf(),
        ensures
            final(self).wf(),
            lru_get_step(*old(self), *final(self), *key, r),
    {
        match self.list.slot_of(key) {
            Some(idx) => {
                self.list.promote(idx, Ghost(*key));
                proof {
                    old(self).list.lemma_view();
                    lemma_to_front_len(old(self).keys(), *key);
                }
                Some(self.list.value(idx, Ghost(*key)).clone())
            },
            None => None,
        }
    }

    /// Inserts or replaces `key`, evicting the least-recently-used entry when
    /// a new key arrives at a full shard.
    pub fn insert(&mut self, key: K, value: V) -> (r: Option<V>)
        requires
            old(self).wf(),
        ensures
            final(self).wf(),
            lru_insert_step(*old(self), *final(self), key, value, r),
    {
        proof {
            old(self).list.lemma_view();
        }
        match self.list.slot_of(&key) {
            Some(idx) => {
                let old_value = self.list.replace(idx, Ghost(key), value);
                self.list.promote(idx, Ghost(key));
                proof {
                    lemma_to_front_len(old(self).keys(), key);
                }
                return Some(old_value);
            },
            None => {},
        }
        if self.list.len() >= self.capacity {
            let _ = self.list.pop_lru();
        }
        self.list.push_front(key, value);
        None
    }

    /// Removes `key`, returning its value.
    pub fn remove(&mut self, key: &K) -> (r: Option<V>)
        requires
            old(self).wf(),
        ensures
            final(self).wf(),
            lru_remove_step(*old(self), *final(self), *key, r),
    {
        proof {
            old(self).list.lemma_view();
            crate::recency::lemma_remove_value_contains(old(self).keys(), *key);
        }
        self.list.remove(key)
    }

    /// Whether `key` is present; order is untouched.
    pub fn contains_key(&self, key: &K) -> (r: bool)
        requires
            self.wf(),
        ensures
            r == self.contents().contains_key(*key),
    {
        self.list.contains(key)
    }

    /// Number of entries.
    pub fn len(&self) -> (r: usize)
        requires
            self.wf(),
        ensures
            r == self.keys().len(),
    {
        self.list.len()
    }

    /// Removes every entry; the capacity stays.
    pub fn clear(&mut self)
        requires
            old(self).wf(),
        ensures
            final(self).wf(),
            final(self).cap() == old(self).cap(),
            final(self).keys() == Seq::<K>::empty(),
            final(self).contents() == Map::<K, V>::empty(),
    {
        self.list.clear();
    }
}

/// Moving a present key to the front keeps the length.
pub proof fn lemma_to_front_len<K>(keys: Seq<K>, k: K)
    requires
        keys.no_duplicates(),
        keys.contains(k),
    ensures
        seq_to_front(keys, k).len() == keys.len(),
{
    crate::recency::lemma_remove_value_contains(keys, k);
}

/// A bounded LRU cache.
///
/// On insert overflow the least-recently-accessed entry is evicted. Both
/// `get` and `insert` count as accesses and promote the affected entry to
/// most-recently-used; `contains_key` does not.
///
/// Sharded into up to 16 independent stores routed by key hash. Caches with
/// fewer than 32 entries use a single shard and keep strict global LRU order;
/// larger ones evict the least-recently-used entry of the affected shard.
pub struct LruCache<K, V> {
    capacity: usize,
    sharded: Sharded<LruShard<K, V>>,
}

impl<K, V> LruCache<K, V> {
    /// The shards, in routing order.
    pub closed spec fn shards(&self) -> Seq<LruShard<K, V>> {
        self.sharded@
    }

    /// Configured total capacity.
    pub closed spec fn cap(&self) -> nat {
        self.capacity as nat
    }

    /// Entry counts of the shards.
    pub open spec fn shard_lens(&self) -> Seq<nat> {
        self.shards().map_values(|s: LruShard<K, V>| s.keys().len())
    }

    /// Total number of entries.
    pub open spec fn entry_count(&self) -> nat {
        sum_of(self.shard_lens())
    }

    /// Every shard is empty, as after construction.
    pub open spec fn all_shards_empty(&self) -> bool {
        forall|i: int|
            0 <= i < self.shards().len() ==> {
                &&& #[trigger] self.shards()[i].keys() == Seq::<K>::empty()
                &&& self.shards()[i].contents() == Map::<K, V>::empty()
            }
    }

    /// The contents of the shards, in routing order.
    pub open spec fn shard_maps(&self) -> Seq<Map<K, V>> {
        self.shards().map_values(|s: LruShard<K, V>| s.contents())
    }

    /// `k` is stored in the cache.
    pub open spec fn holds(&self, k: K) -> bool {
        held(self.shard_maps(), k)
    }

    /// The value stored under `k` (meaningful when `k` is held).
    pub open spec fn value_of(&self, k: K) -> V {
        value_at(self.shard_maps(), k)
    }

    /// Index of the shard that holds `k` (meaningful when `k` is held).
    pub open spec fn home(&self, k: K) -> int {
        home_of(self.shard_maps(), k)
    }

    /// No key is stored in two shards.
    pub open spec fn keys_apart(&self) -> bool {
        apart(self.shard_maps())
    }

    /// `i` is a shard index a key can route to: a `DefaultHasher` digest
    /// masked by the shard count.
    pub open spec fn is_route(&self, i: int) -> bool {
        exists|h: u64| is_digest(h) && i == (h as usize) & ((self.shards().len() - 1) as usize)
    }

    /// Well-formedness: the shard layout follows the capacity, every shard is
    /// well formed with the per-shard capacity.
    pub closed spec fn wf(&self) -> bool {
        &&& obeys_key_model::<K>()
        &&& self.sharded.wf()
        &&& self.capacity > 0
        &&& self.sharded@.len() == shard_count_spec(self.capacity as nat)
        &&& forall|i: int|
            0 <= i < self.sharded@.len() ==> {
                &&& #[trigger] self.sharded@[i].wf()
                &&& self.sharded@[i].cap() == per_shard_spec(
                    self.capacity as nat,
                    shard_count_spec(self.capacity as nat),
                )
            }
    }

    /// The shard layout of a well-formed cache: `shard_count_spec(cap())`
    /// shards, each well formed with the per-shard capacity; below 32 entries
    /// that is a single shard holding the whole capacity and every entry.
    pub proof fn lemma_layout(&self)
        requires
            self.wf(),
        ensures
            self.cap() >= 1,
            self.shards().len() == shard_count_spec(self.cap()),
            forall|i: int|
                0 <= i < self.shards().len() ==> {
                    &&& #[trigger] self.shards()[i].wf()
                    &&& self.shards()[i].cap() == per_shard_spec(self.cap(), shard_count_spec(self.cap()))
                },
            self.cap() < 32 ==> {
                &&& self.shards().len() == 1
                &&& self.shards()[0].cap() == self.cap()
                &&& self.entry_count() == self.shards()[0].keys().len()
            },
    {
        if self.capacity < 32 {
            let lens = self.shard_lens();
            assert(lens.drop_last() =~= Seq::<nat>::empty());
            assert(sum_of(lens.drop_last()) == 0);
            assert(per_shard_spec(self.cap(), 1) == self.cap());
            assert(sum_of(lens) == lens.last());
            assert(self.sharded@[0].wf());
        }
    }

    /// The capacity bound holds in every well-formed cache.
    pub proof fn lemma_bounded(&self)
        requires
            self.wf(),
        ensures
            self.entry_count() <= self.cap(),
            self.shards().len() >= 1,
    {
        let n = self.sharded@.len();
        let per = per_shard_spec(self.capacity as nat, n);
        assert forall|i: int| 0 <= i < self.shard_lens().len() implies #[trigger] self.shard_lens()[i]
            <= per by {
            assert(self.sharded@[i].wf());
        }
        lemma_sum_bound(self.shard_lens(), per);
        lemma_shards_fit(self.capacity as nat);
    }
}

/// What `get` does to the cache as a whole: it returns a clone of the value
/// stored under `k`, and `None` exactly when `k` is not stored; no entry
/// changes.
pub open spec fn lru_cache_get<K, V: Clone>(old: LruCache<K, V>, new: LruCache<K, V>, k: K, r: Option<V>) -> bool {
    &&& (r is Some) == old.holds(k)
    &&& r is Some ==> cloned(old.value_of(k), r->0)
    &&& new.shard_maps() == old.shard_maps()
    &&& new.keys_apart()
}

/// What `insert` does to the cache as a whole: `k` is stored with `v`, the
/// previous value is returned, a new key goes to the shard its hash routes
/// to, and every other entry either stays as it was or is evicted.
pub open spec fn lru_cache_insert<K, V>(old: LruCache<K, V>, new: LruCache<K, V>, k: K, v: V, r: Option<V>) -> bool {
    &&& r == (if old.holds(k) {
        Some(old.value_of(k))
    } else {
        None::<V>
    })
    &&& new.holds(k)
    &&& new.value_of(k) == v
    &&& !old.holds(k) ==> new.is_route(new.home(k))
    &&& forall|k2: K|
        k2 != k && #[trigger] new.holds(k2) ==> old.holds(k2) && new.value_of(k2) == old.value_of(k2)
    &&& new.keys_apart()
}

/// What `remove` does to the cache as a whole: the value stored under `k` is
/// returned and `k` is gone; every other entry stays as it was.
pub open spec fn lru_cache_remove<K, V>(old: LruCache<K, V>, new: LruCache<K, V>, k: K, r: Option<V>) -> bool {
    &&& r == (if old.holds(k) {
        Some(old.value_of(k))
    } else {
        None::<V>
    })
    &&& !new.holds(k)
    &&& forall|k2: K|
        k2 != k ==> (#[trigger] new.holds(k2) == old.holds(k2) && (new.holds(k2) ==> new.value_of(k2)
            == old.value_of(k2)))
    &&& new.keys_apart()
}

impl<K: Copy + Eq + Hash, V: Clone> LruCache<K, V> {
    /// Empty shards hold nothing.
    proof fn lemma_empty_apart(&self)
        requires
            self.all_shards_empty(),
        ensures
            self.keys_apart(),
            forall|k: K| !#[trigger] self.holds(k),
    {
        assert forall|k: K, i: int| !#[trigger] stored_at(self.shard_maps(), k, i) by {
            if 0 <= i < self.shards().len() {
                assert(self.shards()[i].keys() == Seq::<K>::empty());
                assert(self.shards()[i].contents() == Map::<K, V>::empty());
            }
        }
    }

    /// The shard holding `key`, if any: its routed shard first, then the others.
    fn locate(&self, key: &K) -> (r: Option<usize>)
        requires
            self.wf(),
        ensures
            r matches Some(j) ==> j < self.shards().len() && stored_at(self.shard_maps(), *key, j as int),
            r is None ==> !self.holds(*key),
    {
        let i = self.sharded.shard_index(key);
        proof {
            assert(self.sharded@[i as int].wf());
        }
        if self.sharded.shard(i).contains_key(key) {
            return Some(i);
        }
        let n = self.sharded.len();
        let mut j: usize = 0;
        while j < n
            invariant
                self.wf(),
                n == self.shards().len(),
                j <= n,
                forall|a: int| 0 <= a < j ==> !#[trigger] stored_at(self.shard_maps(), *key, a),
            decreases n - j,
        {
            proof {
                assert(self.sharded@[j as int].wf());
            }
            if self.sharded.shard(j).contains_key(key) {
                return Some(j);
            }
            j = j + 1;
        }
        None
    }

    fn build(capacity: usize) -> (r: Self)
        requires
            capacity > 0,
            obeys_key_model::<K>(),
        ensures
            r.wf(),
            r.cap() == capacity,
            r.entry_count() == 0,
            r.all_shards_empty(),
            r.keys_apart(),
    {
        let num_shards = shard_count(capacity);
        let per_shard = per_shard_capacity(capacity, num_shards);
        let make_shard = (|_i: usize| -> (s: LruShard<K, V>)
            ensures
                s.wf(),
                s.cap() == per_shard,
                s.keys().len() == 0,
                s.keys() == Seq::<K>::empty(),
                s.contents() == Map::<K, V>::empty(),
            { LruShard::with_capacity(per_shard) });
        let sharded = Sharded::from_factory(num_shards, make_shard);
        let r = LruCache { capacity, sharded };
        proof {
            assert forall|i: int| 0 <= i < r.shard_lens().len() implies #[trigger] r.shard_lens()[i]
                == 0 by {
                assert(r.sharded@[i].keys().len() == 0);
            }
            lemma_sum_zero(r.shard_lens());
            assert forall|i: int| 0 <= i < r.shards().len() implies {
                &&& #[trigger] r.shards()[i].keys() == Seq::<K>::empty()
                &&& r.shards()[i].contents() == Map::<K, V>::empty()
            } by {
                assert(r.sharded@[i].keys() == Seq::<K>::empty());
            }
        }
        proof {
            r.lemma_empty_apart();
        }
        r
    }

    /// Creates a cache with the given capacity; a capacity of zero is refused.
    pub fn new(capacity: usize) -> (r: Result<Self, CacheError>)
        requires
            obeys_key_model::<K>(),
        ensures
            capacity == 0 ==> r == Err::<Self, CacheError>(CacheError::InvalidCapacity),
            capacity > 0 ==> (r matches Ok(c) && c.wf() && c.cap() == capacity && c.entry_count() == 0
                && c.all_shards_empty() && c.keys_apart()),
    {
        if capacity == 0 {
            return Err(CacheError::InvalidCapacity);
        }
        Ok(Self::build(capacity))
    }

    /// Creates a cache with the given non-zero capacity.
    pub fn with_capacity(capacity: usize) -> (r: Self)
        requires
            capacity > 0,
            obeys_key_model::<K>(),
        ensures
            r.wf(),
            r.cap() == capacity,
            r.entry_count() == 0,
            r.all_shards_empty(),
            r.keys_apart(),
    {
        Self::build(capacity)
    }

    /// `get` on the shard with index `i`.
    pub fn get_in_shard(&mut self, i: usize, key: &K) -> (r: Option<V>)
        requires
            old(self).wf(),
            i < old(self).shards().len(),
        ensures
            final(self).wf(),
            final(self).cap() == old(self).cap(),
            lru_get_step(old(self).shards()[i as int], final(self).shards()[i as int], *key, r),
            final(self).shards() == old(self).shards().update(i as int, final(self).shards()[i as int]),
    {
        proof {
            assert(self.sharded@[i as int].wf());
        }
        let r = self.sharded.shard_mut(i).get(key);
        proof {
            self.lemma_shard_update(*old(self), i as int);
        }
        r
    }

    /// `insert` on the shard with index `i`.
    pub fn insert_in_shard(&mut self, i: usize, key: K, value: V) -> (r: Option<V>)
        requires
            old(self).wf(),
            i < old(self).shards().len(),
        ensures
            final(self).wf(),
            final(self).cap() == old(self).cap(),
            lru_insert_step(old(self).shards()[i as int], final(self).shards()[i as int], key, value, r),
            final(self).shards() == old(self).shards().update(i as int, final(self).shards()[i as int]),
    {
        proof {
            assert(self.sharded@[i as int].wf());
        }
        let r = self.sharded.shard_mut(i).insert(key, value);
        proof {
            self.lemma_shard_update(*old(self), i as int);
        }
        r
    }

    /// `remove` on the shard with index `i`.
    pub fn remove_in_shard(&mut self, i: usize, key: &K) -> (r: Option<V>)
        requires
            old(self).wf(),
            i < old(self).shards().len(),
        ensures
            final(self).wf(),
            final(self).cap() == old(self).cap(),
            lru_remove_step(old(self).shards()[i as int], final(self).shards()[i as int], *key, r),
            final(self).shards() == old(self).shards().update(i as int, final(self).shards()[i as int]),
    {
        proof {
            assert(self.sharded@[i as int].wf());
        }
        let r = self.sharded.shard_mut(i).remove(key);
        proof {
            self.lemma_shard_update(*old(self), i as int);
        }
        r
    }

    /// Replacing one shard by a well-formed shard of the same capacity keeps
    /// the cache well formed.
    proof fn lemma_shard_update(&self, old: Self, i: int)
        requires
            old.wf(),
            0 <= i < old.shards().len(),
            self.capacity == old.capacity,
            self.sharded.wf(),
            self.sharded@ == old.sharded@.update(i, self.sharded@[i]),
            self.sharded@[i].wf(),
            self.sharded@[i].cap() == old.sharded@[i].cap(),
        ensures
            self.wf(),
    {
        assert forall|j: int| 0 <= j < self.sharded@.len() implies {
            &&& #[trigger] self.sharded@[j].wf()
            &&& self.sharded@[j].cap() == per_shard_spec(
                self.capacity as nat,
                shard_count_spec(self.capacity as nat),
            )
        } by {
            assert(old.sharded@[j].wf());
        }
    }
}

impl<K: Copy + Eq + Hash, V: Clone> Cache<K, V> for LruCache<K, V> {
    open spec fn inv(&self) -> bool {
        self.wf() && self.keys_apart()
    }

    open spec fn ready(&self) -> bool {
        self.wf() && self.keys_apart()
    }

    open spec fn entries(&self) -> nat {
        self.entry_count()
    }

    open spec fn load(&self) -> nat {
        self.entry_count()
    }

    open spec fn bound(&self) -> nat {
        self.cap()
    }

    proof fn lemma_inv(&self) {
        self.lemma_bounded();
    }

    proof fn lemma_ready(&self) {
    }

    fn get(&mut self, key: &K) -> (r: Option<V>)
        ensures
            exists|i: int|
                0 <= i < old(self).shards().len() && lru_get_step(
                    old(self).shards()[i],
                    final(self).shards()[i],
                    *key,
                    r,
                ) && final(self).shards() == old(self).shards().update(i, final(self).shards()[i]),
            lru_cache_get(*old(self), *final(self), *key, r),
            old(self).holds(*key) ==> lru_get_step(
                old(self).shards()[old(self).home(*key)],
                final(self).shards()[old(self).home(*key)],
                *key,
                r,
            ) && final(self).shards() == old(self).shards().update(
                old(self).home(*key),
                final(self).shards()[old(self).home(*key)],
            ),
            !old(self).holds(*key) ==> exists|i: int|
                0 <= i < old(self).shards().len() && old(self).is_route(i) && lru_get_step(
                    old(self).shards()[i],
                    final(self).shards()[i],
                    *key,
                    r,
                ) && final(self).shards() == old(self).shards().update(i, final(self).shards()[i]),
    {
        let i = match self.locate(key) {
            Some(j) => j,
            None => {
                let i = self.sharded.shard_index(key);
                proof {
                    assert(self.is_route(i as int));
                }
                i
            },
        };
        let r = self.get_in_shard(i, key);
        proof {
            assert(self.shard_maps() =~= old(self).shard_maps());
            if old(self).holds(*key) {
                let h = old(self).home(*key);
                assert(stored_at(old(self).shard_maps(), *key, h));
                lemma_home(old(self).shard_maps(), *key, h);
                lemma_home(old(self).shard_maps(), *key, i as int);
            } else {
                assert(!stored_at(old(self).shard_maps(), *key, i as int));
            }
        }
        r
    }

    fn insert(&mut self, key: K, value: V) -> (r: Option<V>)
        ensures
            exists|i: int|
                0 <= i < old(self).shards().len() && lru_insert_step(
                    old(self).shards()[i],
                    final(self).shards()[i],
                    key,
                    value,
                    r,
                ) && final(self).shards() == old(self).shards().update(i, final(self).shards()[i]),
            lru_cache_insert(*old(self), *final(self), key, value, r),
            old(self).holds(key) ==> lru_insert_step(
                old(self).shards()[old(self).home(key)],
                final(self).shards()[old(self).home(key)],
                key,
                value,
                r,
            ) && final(self).shards() == old(self).shards().update(
                old(self).home(key),
                final(self).shards()[old(self).home(key)],
            ),
            !old(self).holds(key) ==> exists|i: int|
                0 <= i < old(self).shards().len() && old(self).is_route(i) && lru_insert_step(
                    old(self).shards()[i],
                    final(self).shards()[i],
                    key,
                    value,
                    r,
                ) && final(self).shards() == old(self).shards().update(i, final(self).shards()[i]),
    {
        let located = self.locate(&key);
        let i = match located {
            Some(j) => j,
            None => {
                let i = self.sharded.shard_index(&key);
                proof {
                    assert(self.is_route(i as int));
                }
                i
            },
        };
        let r = self.insert_in_shard(i, key, value);
        proof {
            let ms = old(self).shard_maps();
            let m2 = self.shards()[i as int].contents();
            assert(self.shard_maps() =~= ms.update(i as int, m2));
            assert(ms[i as int] == old(self).shards()[i as int].contents());
            if located is Some {
                lemma_home(ms, key, i as int);
            } else {
                assert(!stored_at(ms, key, i as int));
            }
            lemma_replace(ms, m2, i as int, key);
            lemma_home(self.shard_maps(), key, i as int);
        }
        r
    }

    fn remove(&mut self, key: &K) -> (r: Option<V>)
        ensures
            exists|i: int|
                0 <= i < old(self).shards().len() && lru_remove_step(
                    old(self).shards()[i],
                    final(self).shards()[i],
                    *key,
                    r,
                ) && final(self).shards() == old(self).shards().update(i, final(self).shards()[i]),
            lru_cache_remove(*old(self), *final(self), *key, r),
            old(self).holds(*key) ==> lru_remove_step(
                old(self).shards()[old(self).home(*key)],
                final(self).shards()[old(self).home(*key)],
                *key,
                r,
            ) && final(self).shards() == old(self).shards().update(
                old(self).home(*key),
                final(self).shards()[old(self).home(*key)],
            ),
    {
        let located = self.locate(key);
        let i = match located {
            Some(j) => j,
            None => {
                let i = self.sharded.shard_index(key);
                proof {
                    assert(self.is_route(i as int));
                }
                i
            },
        };
        let r = self.remove_in_shard(i, key);
        proof {
            let ms = old(self).shard_maps();
            let m2 = self.shards()[i as int].contents();
            assert(self.shard_maps() =~= ms.update(i as int, m2));
            assert(ms[i as int] == old(self).shards()[i as int].contents());
            if located is Some {
                lemma_home(ms, *key, i as int);
            } else {
                assert(!stored_at(ms, *key, i as int));
            }
            lemma_replace(ms, m2, i as int, *key);
        }
        r
    }

    fn contains_key(&mut self, key: &K) -> (r: bool)
        ensures
            *final(self) == *old(self),
            exists|i: int|
                0 <= i < old(self).shards().len() && r == old(self).shards()[i].contents().contains_key(
                    *key,
                ),
            r == old(self).holds(*key),
    {
        match self.locate(key) {
            Some(j) => {
                proof {
                    assert(stored_at(self.shard_maps(), *key, j as int));
                }
                true
            },
            None => {
                proof {
                    assert(self.sharded@.len() >= 1);
                    assert(!stored_at(self.shard_maps(), *key, 0));
                }
                false
            },
        }
    }

    fn len(&mut self) -> (r: usize)
        ensures
            *final(self) == *old(self),
    {
        let n = self.sharded.len();
        let ghost lens = self.shard_lens();
        proof {
            self.lemma_bounded();
        }
        let mut total: usize = 0;
        let mut i: usize = 0;
        while i < n
            invariant
                self.wf(),
                n == self.shards().len(),
                lens == self.shard_lens(),
                i <= n,
                total == sum_of(lens.take(i as int)),
                sum_of(lens) <= self.cap(),
                self.cap() <= usize::MAX,
            decreases n - i,
        {
            proof {
                lemma_sum_prefix(lens, i as int);
                assert(self.sharded@[i as int].wf());
                assert(lens[i as int] == self.shards()[i as int].keys().len());
            }
            total = total + self.sharded.shard(i).len();
            i = i + 1;
        }
        proof {
            assert(lens.take(n as int) =~= lens);
        }
        total
    }

    fn is_empty(&mut self) -> (r: bool)
        ensures
            *final(self) == *old(self),
    {
        self.len() == 0
    }

    fn clear(&mut self)
        ensures
            final(self).all_shards_empty(),
    {
        let n = self.sharded.len();
        let mut i: usize = 0;
        while i < n
            invariant
                self.wf(),
                n == self.shards().len(),
                self.cap() == old(self).cap(),
                i <= n,
                forall|j: int| 0 <= j < i ==> #[trigger] self.shards()[j].keys() == Seq::<K>::empty(),
                forall|j: int| 0 <= j < i ==> #[trigger] self.shards()[j].contents() == Map::<K, V>::empty(),
            decreases n - i,
        {
            proof {
                assert(self.sharded@[i as int].wf());
            }
            let ghost before = *self;
            self.sharded.shard_mut(i).clear();
            proof {
                self.lemma_shard_update(before, i as int);
            }
            i = i + 1;
        }
        proof {
            assert forall|j: int| 0 <= j < self.shard_lens().len() implies #[trigger] self.shard_lens()[j]
                == 0 by {
                assert(self.shards()[j].keys() == Seq::<K>::empty());
            }
            lemma_sum_zero(self.shard_lens());
            self.lemma_empty_apart();
        }
    }

    fn capacity(&self) -> (r: usize) {
        self.capacity
    }
}

/// Read after write: a `get` right after an `insert` of `k` into the same shard
/// returns a clone of the inserted value.
pub proof fn lemma_lru_insert_then_get<K, V: Clone>(
    s0: LruShard<K, V>,
    s1: LruShard<K, V>,
    s2: LruShard<K, V>,
    k: K,
    v: V,
    r1: Option<V>,
    r2: Option<V>,
)
    requires
        s0.wf(),
        lru_insert_step(s0, s1, k, v, r1),
        lru_get_step(s1, s2, k, r2),
    ensures
        r2 is Some,
        cloned(v, r2->0),
{
    s0.lemma_wf();
}

/// Remove then query: after `remove(k)` the shard no longer holds `k`, and a
/// following `get(k)` misses.
pub proof fn lemma_lru_remove_then_get<K, V: Clone>(
    s0: LruShard<K, V>,
    s1: LruShard<K, V>,
    s2: LruShard<K, V>,
    k: K,
    r1: Option<V>,
    r2: Option<V>,
)
    requires
        lru_remove_step(s0, s1, k, r1),
        lru_get_step(s1, s2, k, r2),
    ensures
        !s1.contents().contains_key(k),
        r2 is None,
{
}

/// Recency protects: in a full shard with room for at least two entries, a key
/// just read survives the insertion of a new key.
pub proof fn lemma_lru_recent_survives<K, V: Clone>(
    s0: LruShard<K, V>,
    s1: LruShard<K, V>,
    s2: LruShard<K, V>,
    k: K,
    k2: K,
    v2: V,
    r1: Option<V>,
    r2: Option<V>,
)
    requires
        s0.wf(),
        s0.cap() >= 2,
        s0.contents().contains_key(k),
        lru_get_step(s0, s1, k, r1),
        s1.wf(),
        lru_insert_step(s1, s2, k2, v2, r2),
    ensures
        s2.contents().contains_key(k),
{
    s0.lemma_wf();
    s1.lemma_wf();
    crate::recency::lemma_remove_value_contains(s0.keys(), k);
    assert(s1.keys()[0] == k);
    if !s1.contents().contains_key(k2) && s1.keys().len() >= s1.cap() {
        assert(s1.keys().last() != k) by {
            assert(s1.keys()[s1.keys().len() - 1] == s1.keys().last());
        }
    }
}

/// Read after write on a cache of capacity below 32, which has a single shard:
/// a `get` right after an `insert` returns a clone of the inserted value.
pub proof fn lemma_lru_cache_insert_then_get<K, V: Clone>(
    c0: LruCache<K, V>,
    c1: LruCache<K, V>,
    c2: LruCache<K, V>,
    k: K,
    v: V,
    r1: Option<V>,
    r2: Option<V>,
)
    requires
        c0.wf(),
        c0.cap() < 32,
        exists|i: int|
            0 <= i < c0.shards().len() && lru_insert_step(c0.shards()[i], c1.shards()[i], k, v, r1)
                && c1.shards() == c0.shards().update(i, c1.shards()[i]),
        exists|i: int|
            0 <= i < c1.shards().len() && lru_get_step(c1.shards()[i], c2.shards()[i], k, r2)
                && c2.shards() == c1.shards().update(i, c2.shards()[i]),
    ensures
        r2 is Some,
        cloned(v, r2->0),
{
    c0.lemma_layout();
    lemma_lru_insert_then_get(c0.shards()[0], c1.shards()[0], c2.shards()[0], k, v, r1, r2);
}

/// Below its capacity a shard evicts nothing: inserting a new key keeps every
/// stored entry and adds the new one.
pub proof fn lemma_lru_insert_with_room_evicts_nothing<K, V>(
    s0: LruShard<K, V>,
    s1: LruShard<K, V>,
    k: K,
    v: V,
    r: Option<V>,
)
    requires
        s0.wf(),
        !s0.contents().contains_key(k),
        s0.keys().len() < s0.cap(),
        lru_insert_step(s0, s1, k, v, r),
    ensures
        r is None,
        s1.contents() == s0.contents().insert(k, v),
        s1.contents().len() == s0.contents().len() + 1,
{
    s0.lemma_wf();
    s0.list.lemma_view();
}

/// Read after write, at every capacity: a `get` right after an `insert` of `k`
/// returns a clone of the inserted value, and `k` is stored.
pub proof fn lemma_lru_read_after_write<K, V: Clone>(
    c0: LruCache<K, V>,
    c1: LruCache<K, V>,
    c2: LruCache<K, V>,
    k: K,
    v: V,
    r1: Option<V>,
    r2: Option<V>,
)
    requires
        lru_cache_insert(c0, c1, k, v, r1),
        lru_cache_get(c1, c2, k, r2),
    ensures
        c1.holds(k),
        r2 is Some,
        cloned(v, r2->0),
{
}

/// Remove after write, at every capacity: removing `k` right after inserting
/// it returns the inserted value, and `k` is then no longer stored.
pub proof fn lemma_lru_remove_after_write<K, V>(
    c0: LruCache<K, V>,
    c1: LruCache<K, V>,
    c2: LruCache<K, V>,
    k: K,
    v: V,
    r1: Option<V>,
    r2: Option<V>,
)
    requires
        lru_cache_insert(c0, c1, k, v, r1),
        lru_cache_remove(c1, c2, k, r2),
    ensures
        r2 == Some(v),
        !c2.holds(k),
{
}

/// Overwrite, at every capacity: a second `insert` of `k` returns the value
/// the first one stored, and leaves the new value in its place.
pub proof fn lemma_lru_overwrite_returns_previous<K, V>(
    c0: LruCache<K, V>,
    c1: LruCache<K, V>,
    c2: LruCache<K, V>,
    k: K,
    v1: V,
    v2: V,
    r1: Option<V>,
    r2: Option<V>,
)
    requires
        lru_cache_insert(c0, c1, k, v1, r1),
        lru_cache_insert(c1, c2, k, v2, r2),
    ensures
        r2 == Some(v1),
        c2.holds(k),
        c2.value_of(k) == v2,
{
}

/// Read after remove, at every capacity: a `get` right after removing `k`
/// misses.
pub proof fn lemma_lru_get_after_remove<K, V: Clone>(
    c0: LruCache<K, V>,
    c1: LruCache<K, V>,
    c2: LruCache<K, V>,
    k: K,
    r1: Option<V>,
    r2: Option<V>,
)
    requires
        lru_cache_remove(c0, c1, k, r1),
        lru_cache_get(c1, c2, k, r2),
    ensures
        r2 is None,
{
}

/// Writes to one key leave every other stored key readable with its value,
/// unless the write evicted it.
pub proof fn lemma_lru_other_keys_kept<K, V: Clone>(
    c0: LruCache<K, V>,
    c1: LruCache<K, V>,
    c2: LruCache<K, V>,
    k: K,
    v: V,
    k2: K,
    r1: Option<V>,
    r2: Option<V>,
)
    requires
        k2 != k,
        lru_cache_insert(c0, c1, k, v, r1),
        c1.holds(k2),
        lru_cache_get(c1, c2, k2, r2),
    ensures
        c0.holds(k2),
        r2 is Some,
        cloned(c0.value_of(k2), r2->0),
{
}

} // verus!
