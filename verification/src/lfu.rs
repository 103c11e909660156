//! Least-Frequently-Used (LFU) cache: sharded, with a `BTreeMap` priority index.

use vstd::prelude::*;
use core::hash::Hash;
use std::collections::BTreeMap;
use std::collections::HashMap;
use vstd::std_specs::hash::obeys_key_model;
use crate::cache::Cache;
use crate::error::CacheError;
use crate::sharding::{
    Sharded,
    shard_count,
    per_shard_capacity,
    shard_count_spec,
    per_shard_spec,
    sum_of,
    lemma_sum_bound,
    lemma_sum_zero,
    lemma_sum_prefix,
    lemma_shards_fit,
    stored_at,
    held,
    home_of,
    value_at,
    apart,
    lemma_home,
    lemma_replace,
};
use crate::hashing::is_digest;

verus! {

broadcast use vstd::std_specs::hash::group_hash_axioms, vstd::laws_cmp::group_laws_cmp;

/// Lexicographic order on `(count, age)` priorities, the order of Rust tuples.
pub open spec fn prio_le(a: (u64, u64), b: (u64, u64)) -> bool {
    a.0 < b.0 || (a.0 == b.0 && a.1 <= b.1)
}

/// `BTreeMap::pop_first`: removes and returns the entry with the smallest key.
///
/// Trusted: the contract restates the documented behaviour of `pop_first`
/// for tuple keys, which `BTreeMap` orders lexicographically.
#[verifier::external_body]
fn pop_first<K>(m: &mut BTreeMap<(u64, u64), K>) -> (r: Option<((u64, u64), K)>)
    ensures
        r is None ==> old(m)@.dom() == Set::<(u64, u64)>::empty() && final(m)@ == old(m)@,
        r matches Some((p, k)) ==> {
            &&& old(m)@.contains_key(p)
            &&& old(m)@[p] == k
            &&& final(m)@ == old(m)@.remove(p)
            &&& forall|q: (u64, u64)| #[trigger] old(m)@.contains_key(q) ==> prio_le(p, q)
        },
{
    m.pop_first()
}

struct Entry<V> {
    value: V,
    count: u64,
    age: u64,
}

/// One shard of an [`LfuCache`].
pub struct LfuShard<K, V> {
    capacity: usize,
    map: HashMap<K, Entry<V>>,
    by_priority: BTreeMap<(u64, u64), K>,
    clock: u64,
}

/// Access counter after one more access (saturating).
pub open spec fn bump(count: u64) -> u64 {
    if count == u64::MAX {
        count
    } else {
        (count + 1) as u64
    }
}

impl<K, V> LfuShard<K, V> {
    spec fn prio(&self, k: K) -> (u64, u64) {
        (self.map@[k].count, self.map@[k].age)
    }

    /// Well-formed: the priority index is a bijection with the entries, every
    /// age is at most the clock, and the shard is within its capacity.
    pub closed spec fn wf(&self) -> bool {
        &&& obeys_key_model::<K>()
        &&& self.capacity > 0
        &&& self.map@.len() <= self.capacity
        &&& self.index_ok()
    }

    spec fn index_ok(&self) -> bool {
        &&& forall|k: K|
            #[trigger] self.map@.contains_key(k) ==> {
                &&& self.by_priority@.contains_key(self.prio(k))
                &&& self.by_priority@[self.prio(k)] == k
                &&& self.map@[k].age <= self.clock
            }
        &&& forall|p: (u64, u64)|
            #[trigger] self.by_priority@.contains_key(p) ==> {
                &&& self.map@.contains_key(self.by_priority@[p])
                &&& self.prio(self.by_priority@[p]) == p
            }
    }

    /// Stored values.
    pub closed spec fn contents(&self) -> Map<K, V> {
        self.map@.map_values(|e: Entry<V>| e.value)
    }

    /// Access counter of each key.
    pub closed spec fn counts(&self) -> Map<K, u64> {
        self.map@.map_values(|e: Entry<V>| e.count)
    }

    /// Time of the last access of each key.
    pub closed spec fn ages(&self) -> Map<K, u64> {
        self.map@.map_values(|e: Entry<V>| e.age)
    }

    /// The access clock.
    pub closed spec fn clock(&self) -> u64 {
        self.clock
    }

    /// Capacity of this shard.
    pub closed spec fn cap(&self) -> nat {
        self.capacity as nat
    }

    /// Facts every well-formed shard satisfies; in particular no two keys share
    /// a priority, so the eviction victim is unique.
    pub proof fn lemma_wf(&self)
        requires
            self.wf(),
        ensures
            self.contents().dom() == self.counts().dom(),
            self.contents().dom() == self.ages().dom(),
            self.contents().dom().finite(),
            self.contents().len() <= self.cap(),
            self.cap() > 0,
            forall|k: K| #[trigger] self.ages().contains_key(k) ==> self.ages()[k] <= self.clock(),
            forall|k1: K, k2: K|
                #![trigger self.counts()[k1], self.counts()[k2]]
                self.contents().contains_key(k1) && self.contents().contains_key(k2) && k1 != k2 ==> (
                self.counts()[k1], self.ages()[k1]) != (self.counts()[k2], self.ages()[k2]),
    {
        assert(self.contents().dom() =~= self.map@.dom());
        assert(self.counts().dom() =~= self.map@.dom());
        assert(self.ages().dom() =~= self.map@.dom());
        assert forall|k1: K, k2: K|
            #![trigger self.counts()[k1], self.counts()[k2]]
            self.contents().contains_key(k1) && self.contents().contains_key(k2) && k1
                != k2 implies (self.counts()[k1], self.ages()[k1]) != (
            self.counts()[k2], self.ages()[k2]) by {
            assert(self.map@.contains_key(k1));
            assert(self.map@.contains_key(k2));
        }
    }
}

/// `victim` has the smallest `(count, age)` priority among the entries.
pub open spec fn is_lfu_victim<K>(counts: Map<K, u64>, ages: Map<K, u64>, victim: K) -> bool {
    &&& counts.contains_key(victim)
    &&& forall|k: K|
        #[trigger] counts.contains_key(k) ==> prio_le((counts[victim], ages[victim]), (counts[k], ages[k]))
}

/// What `get` does to a shard: the clock ticks; a hit bumps the key's counter,
/// stamps it with the new clock, and returns a clone of its value.
pub open spec fn lfu_get_step<K, V: Clone>(old: LfuShard<K, V>, new: LfuShard<K, V>, k: K, r: Option<V>) -> bool {
    &&& new.cap() == old.cap()
    &&& new.clock() == old.clock() + 1
    &&& new.contents() == old.contents()
    &&& if old.contents().contains_key(k) {
        &&& r is Some
        &&& cloned(old.contents()[k], r->0)
        &&& new.counts() == old.counts().insert(k, bump(old.counts()[k]))
        &&& new.ages() == old.ages().insert(k, new.clock())
    } else {
        &&& r is None
        &&& new.counts() == old.counts()
        &&& new.ages() == old.ages()
    }
}

/// What `insert` does to a shard: the clock ticks; an existing key gets the new
/// value, a bumped counter and the new stamp, and its old value is returned; a
/// new key arrives with counter 1, evicting the lowest-priority entry (fewest
/// accesses, then oldest access) when the shard is full.
pub open spec fn lfu_insert_step<K, V>(old: LfuShard<K, V>, new: LfuShard<K, V>, k: K, v: V, r: Option<V>) -> bool {
    &&& new.cap() == old.cap()
    &&& new.clock() == old.clock() + 1
    &&& if old.contents().contains_key(k) {
        &&& r == Some(old.contents()[k])
        &&& new.contents() == old.contents().insert(k, v)
        &&& new.counts() == old.counts().insert(k, bump(old.counts()[k]))
        &&& new.ages() == old.ages().insert(k, new.clock())
    } else if old.contents().len() >= old.cap() {
        &&& r is None
        &&& exists|victim: K|
            {
                &&& is_lfu_victim(old.counts(), old.ages(), victim)
                &&& new.contents() == old.contents().remove(victim).insert(k, v)
                &&& new.counts() == old.counts().remove(victim).insert(k, 1)
                &&& new.ages() == old.ages().remove(victim).insert(k, new.clock())
            }
    } else {
        &&& r is None
        &&& new.contents() == old.contents().insert(k, v)
        &&& new.counts() == old.counts().insert(k, 1)
        &&& new.ages() == old.ages().insert(k, new.clock())
    }
}

/// What `remove` does to a shard.
pub open spec fn lfu_remove_step<K, V>(old: LfuShard<K, V>, new: LfuShard<K, V>, k: K, r: Option<V>) -> bool {
    &&& new.cap() == old.cap()
    &&& new.clock() == old.clock()
    &&& r == (if old.contents().contains_key(k) {
        Some(old.contents()[k])
    } else {
        None::<V>
    })
    &&& new.contents() == old.contents().remove(k)
    &&& new.counts() == old.counts().remove(k)
    &&& new.ages() == old.ages().remove(k)
}

impl<K: Copy + Eq + Hash, V: Clone> LfuShard<K, V> {
    /// An empty shard of the given capacity.
    pub fn with_capacity(capacity: usize) -> (r: Self)
        requires
            capacity > 0,
            obeys_key_model::<K>(),
        ensures
            r.wf(),
            r.cap() == capacity,
            r.clock() == 0,
            r.contents() == Map::<K, V>::empty(),
    {
        let r = LfuShard {
            capacity,
            map: HashMap::with_capacity(capacity),
            by_priority: BTreeMap::new(),
            clock: 0,
        };
        assert(r.contents() =~= Map::<K, V>::empty());
        r
    }

    /// Advances the clock and returns its new value.
    fn tick(&mut self) -> (r: u64)
        requires
            old(self).clock < u64::MAX,
        ensures
            r == old(self).clock + 1,
            final(self).clock == r,
            final(self).map == old(self).map,
            final(self).by_priority == old(self).by_priority,
            final(self).capacity == old(self).capacity,
    {
        self.clock = self.clock.wrapping_add(1);
        self.clock
    }

    /// Looks `key` up; a hit counts as an access.
    pub fn get(&mut self, key: &K) -> (r: Option<V>)
        requires
            old(self).wf(),
            old(self).clock() < u64::MAX,
        ensures
            final(self).wf(),
            lfu_get_step(*old(self), *final(self), *key, r),
    {
        let new_age = self.tick();
        let ghost before = *self;
        proof {
            assert forall|k: K| #[trigger] before.map@.contains_key(k) implies before.map@[k].age < new_age by {
                assert(old(self).map@.contains_key(k));
            }
        }
        match self.map.remove(key) {
            Some(entry) => {
                let old_priority = (entry.count, entry.age);
                let count = entry.count.saturating_add(1);
                let value = entry.value.clone();
                let _ = self.map.insert(*key, Entry { value: entry.value, count, age: new_age });
                let _ = self.by_priority.remove(&old_priority);
                let _ = self.by_priority.insert((count, new_age), *key);
                proof {
                    assert(self.map@ =~= before.map@.insert(*key, Entry { value: self.map@[*key].value, count, age: new_age }));
                    self.lemma_retime(before, *key, count, new_age);
                    assert(self.contents() =~= old(self).contents());
                    assert(self.counts() =~= old(self).counts().insert(*key, bump(old(self).counts()[*key])));
                    assert(self.ages() =~= old(self).ages().insert(*key, new_age));
                }
                Some(value)
            },
            None => {
                proof {
                    assert(self.map@ == before.map@);
                    assert(self.contents() =~= old(self).contents());
                    assert(self.counts() =~= old(self).counts());
                    assert(self.ages() =~= old(self).ages());
                }
                None
            },
        }
    }

    /// After the entry of `key` was re-stamped with `(count, age)` where `age`
    /// is newer than every stamp, the shard is well formed again.
    proof fn lemma_retime(&self, before: Self, key: K, count: u64, age: u64)
        requires
            before.wf(),
            before.map@.contains_key(key),
            before.clock == age,
            forall|k: K| #[trigger] before.map@.contains_key(k) ==> before.map@[k].age < age,
            self.map@ == before.map@.insert(
                key,
                Entry { value: self.map@[key].value, count, age },
            ),
            self.by_priority@ == before.by_priority@.remove(before.prio(key)).insert((count, age), key),
            self.clock == age,
            self.capacity == before.capacity,
        ensures
            self.wf(),
    {
        assert forall|k: K| #[trigger] self.map@.contains_key(k) implies {
            &&& self.by_priority@.contains_key(self.prio(k))
            &&& self.by_priority@[self.prio(k)] == k
            &&& self.map@[k].age <= self.clock
        } by {
            if k != key {
                assert(before.map@.contains_key(k));
                assert(before.prio(k) != before.prio(key));
            }
        }
        assert forall|p: (u64, u64)| #[trigger] self.by_priority@.contains_key(p) implies {
            &&& self.map@.contains_key(self.by_priority@[p])
            &&& self.prio(self.by_priority@[p]) == p
        } by {
            if p != (count, age) {
                assert(before.by_priority@.contains_key(p));
                assert(before.by_priority@[p] != key);
            }
        }
    }

    /// Inserts `key` or replaces its value; a new key at a full shard evicts
    /// the entry with the fewest accesses, the oldest on a tie.
    pub fn insert(&mut self, key: K, value: V) -> (r: Option<V>)
        requires
            old(self).wf(),
            old(self).clock() < u64::MAX,
        ensures
            final(self).wf(),
            lfu_insert_step(*old(self), *final(self), key, value, r),
    {
        let new_age = self.tick();
        let ghost before = *self;
        proof {
            assert forall|k: K| #[trigger] before.map@.contains_key(k) implies before.map@[k].age < new_age by {
                assert(old(self).map@.contains_key(k));
            }
        }
        match self.map.remove(&key) {
            Some(entry) => {
                let old_priority = (entry.count, entry.age);
                let count = entry.count.saturating_add(1);
                let _ = self.map.insert(key, Entry { value, count, age: new_age });
                let _ = self.by_priority.remove(&old_priority);
                let _ = self.by_priority.insert((count, new_age), key);
                proof {
                    assert(self.map@ =~= before.map@.insert(key, Entry { value: self.map@[key].value, count, age: new_age }));
                    self.lemma_retime(before, key, count, new_age);
                    assert(self.contents() =~= old(self).contents().insert(key, value));
                    assert(self.counts() =~= old(self).counts().insert(key, bump(old(self).counts()[key])));
                    assert(self.ages() =~= old(self).ages().insert(key, new_age));
                }
                return Some(entry.value);
            },
            None => {},
        }
        let ghost victim: Option<K> = None;
        if self.map.len() >= self.capacity {
            proof {
                assert(self.map@.dom().len() > 0);
                if self.map@.dom() =~= Set::<K>::empty() {
                    assert(self.map@.dom().len() == 0);
                }
                let some_key = choose|k: K| self.map@.dom().contains(k);
                assert(self.by_priority@.contains_key(self.prio(some_key)));
            }
            match pop_first(&mut self.by_priority) {
                Some((p, vk)) => {
                    let _ = self.map.remove(&vk);
                    proof {
                        victim = Some(vk);
                        assert(before.map@.contains_key(vk));
                        assert forall|k: K| #[trigger] old(self).counts().contains_key(k) implies prio_le(
                            (old(self).counts()[vk], old(self).ages()[vk]),
                            (old(self).counts()[k], old(self).ages()[k]),
                        ) by {
                            assert(before.map@.contains_key(k));
                            assert(before.by_priority@.contains_key(before.prio(k)));
                        }
                        assert forall|k: K| #[trigger] self.map@.contains_key(k) implies {
                            &&& self.by_priority@.contains_key(self.prio(k))
                            &&& self.by_priority@[self.prio(k)] == k
                            &&& self.map@[k].age <= self.clock
                        } by {
                            assert(before.map@.contains_key(k));
                            assert(before.prio(k) != p);
                        }
                        assert forall|q: (u64, u64)| #[trigger] self.by_priority@.contains_key(q) implies {
                            &&& self.map@.contains_key(self.by_priority@[q])
                            &&& self.prio(self.by_priority@[q]) == q
                        } by {
                            assert(before.by_priority@.contains_key(q));
                            assert(before.by_priority@[q] != vk);
                        }
                    }
                },
                None => {
                    proof {
                        assert(before.by_priority@.dom().contains(before.prio(choose|k: K| before.map@.dom().contains(k))));
                    }
                },
            }
        }
        let ghost mid = *self;
        proof {
            assert(mid.index_ok());
            assert forall|k: K| #[trigger] mid.map@.contains_key(k) implies mid.map@[k].age < new_age by {
                assert(before.map@.contains_key(k));
            }
            assert(!mid.map@.contains_key(key));
            assert(mid.map@.len() < self.capacity);
        }
        let _ = self.map.insert(key, Entry { value, count: 1, age: new_age });
        let _ = self.by_priority.insert((1, new_age), key);
        proof {
            self.lemma_fresh(mid, key, new_age);
            assert(old(self).contents().dom() =~= old(self).map@.dom());
            assert(old(self).contents().len() == before.map@.len());
            match victim {
                Some(vk) => {
                    assert(self.contents() =~= old(self).contents().remove(vk).insert(key, value));
                    assert(self.counts() =~= old(self).counts().remove(vk).insert(key, 1));
                    assert(self.ages() =~= old(self).ages().remove(vk).insert(key, new_age));
                    assert(is_lfu_victim(old(self).counts(), old(self).ages(), vk));
                    assert(old(self).contents().len() >= old(self).cap());
                },
                None => {
                    assert(self.contents() =~= old(self).contents().insert(key, value));
                    assert(self.counts() =~= old(self).counts().insert(key, 1));
                    assert(self.ages() =~= old(self).ages().insert(key, new_age));
                },
            }
            old(self).lemma_wf();
        }
        None
    }

    /// After a fresh key was added with stamp `age`, newer than every stamp,
    /// the priority index is consistent again.
    proof fn lemma_fresh(&self, before: Self, key: K, age: u64)
        requires
            before.index_ok(),
            !before.map@.contains_key(key),
            forall|k: K| #[trigger] before.map@.contains_key(k) ==> before.map@[k].age < age,
            self.map@ == before.map@.insert(key, Entry { value: self.map@[key].value, count: 1, age }),
            self.by_priority@ == before.by_priority@.insert((1, age), key),
            self.clock == age,
            before.clock == age,
        ensures
            self.index_ok(),
    {
        assert forall|k: K| #[trigger] self.map@.contains_key(k) implies {
            &&& self.by_priority@.contains_key(self.prio(k))
            &&& self.by_priority@[self.prio(k)] == k
            &&& self.map@[k].age <= self.clock
        } by {
            if k != key {
                assert(before.map@.contains_key(k));
            }
        }
        assert forall|p: (u64, u64)| #[trigger] self.by_priority@.contains_key(p) implies {
            &&& self.map@.contains_key(self.by_priority@[p])
            &&& self.prio(self.by_priority@[p]) == p
        } by {
            if p != (1u64, age) {
                assert(before.by_priority@.contains_key(p));
                assert(before.by_priority@[p] != key);
            }
        }
    }

    /// Removes `key`, returning its value.
    pub fn remove(&mut self, key: &K) -> (r: Option<V>)
        requires
            old(self).wf(),
        ensures
            final(self).wf(),
            lfu_remove_step(*old(self), *final(self), *key, r),
    {
        let ghost before = *self;
        match self.map.remove(key) {
            Some(entry) => {
                let _ = self.by_priority.remove(&(entry.count, entry.age));
                proof {
                    assert forall|k: K| #[trigger] self.map@.contains_key(k) implies {
                        &&& self.by_priority@.contains_key(self.prio(k))
                        &&& self.by_priority@[self.prio(k)] == k
                        &&& self.map@[k].age <= self.clock
                    } by {
                        assert(before.map@.contains_key(k));
                        assert(before.prio(k) != before.prio(*key));
                    }
                    assert forall|q: (u64, u64)| #[trigger] self.by_priority@.contains_key(q) implies {
                        &&& self.map@.contains_key(self.by_priority@[q])
                        &&& self.prio(self.by_priority@[q]) == q
                    } by {
                        assert(before.by_priority@.contains_key(q));
                    }
                    assert(self.contents() =~= old(self).contents().remove(*key));
                    assert(self.counts() =~= old(self).counts().remove(*key));
                    assert(self.ages() =~= old(self).ages().remove(*key));
                }
                Some(entry.value)
            },
            None => {
                proof {
                    assert(self.contents() =~= old(self).contents().remove(*key));
                    assert(self.counts() =~= old(self).counts().remove(*key));
                    assert(self.ages() =~= old(self).ages().remove(*key));
                }
                None
            },
        }
    }

    /// Whether `key` is present; counters and stamps are untouched.
    pub fn contains_key(&self, key: &K) -> (r: bool)
        requires
            self.wf(),
        ensures
            r == self.contents().contains_key(*key),
    {
        self.map.contains_key(key)
    }

    /// Number of entries.
    pub fn len(&self) -> (r: usize)
        requires
            self.wf(),
        ensures
            r == self.contents().len(),
    {
        proof {
            assert(self.contents().dom() =~= self.map@.dom());
        }
        self.map.len()
    }

    /// Removes every entry and resets the priority index and the clock.
    pub fn clear(&mut self)
        requires
            old(self).wf(),
        ensures
            final(self).wf(),
            final(self).cap() == old(self).cap(),
            final(self).clock() == 0,
            final(self).contents() == Map::<K, V>::empty(),
    {
        self.map.clear();
        self.by_priority.clear();
        self.clock = 0;
        proof {
            assert(self.contents() =~= Map::<K, V>::empty());
        }
    }
}

/// A bounded LFU cache.
///
/// Each entry carries a counter that is incremented on every `get` or
/// `insert` of an already-present key. On overflow the entry with the lowest
/// counter is evicted; ties go to the least-recently-accessed entry.
/// `contains_key` is a query and touches neither counters nor order.
///
/// Sharded into up to 16 independent stores routed by key hash; caches with
/// fewer than 32 entries use one shard and keep strict global LFU order.
pub struct LfuCache<K, V> {
    capacity: usize,
    sharded: Sharded<LfuShard<K, V>>,
}

impl<K, V> LfuCache<K, V> {
    /// The shards, in routing order.
    pub closed spec fn shards(&self) -> Seq<LfuShard<K, V>> {
        self.sharded@
    }

    /// Configured total capacity.
    pub closed spec fn cap(&self) -> nat {
        self.capacity as nat
    }

    /// Entry counts of the shards.
    pub open spec fn shard_lens(&self) -> Seq<nat> {
        self.shards().map_values(|s: LfuShard<K, V>| s.contents().len())
    }

    /// Total number of entries.
    pub open spec fn entry_count(&self) -> nat {
        sum_of(self.shard_lens())
    }

    /// Every shard clock still has room to tick.
    pub open spec fn clocks_fresh(&self) -> bool {
        forall|i: int| 0 <= i < self.shards().len() ==> #[trigger] self.shards()[i].clock() < u64::MAX
    }

    /// Every shard is empty and its clock is back at zero, as after
    /// construction.
    pub open spec fn all_shards_fresh(&self) -> bool {
        forall|i: int|
            0 <= i < self.shards().len() ==> {
                &&& #[trigger] self.shards()[i].contents() == Map::<K, V>::empty()
                &&& self.shards()[i].clock() == 0
            }
    }

    /// The contents of the shards, in routing order.
    pub open spec fn shard_maps(&self) -> Seq<Map<K, V>> {
        self.shards().map_values(|s: LfuShard<K, V>| s.contents())
    }

    /// `k` is stored in the cache.
    pub open spec fn holds(&self, k: K) -> bool {
        held(self.shard_maps(), k)
    }

    /// The value stored under `k` (meaningful when `k` is held).
    pub open spec fn value_of(&self, k: K) -> V {
        value_at(self.shard_maps(), k)
    }

    /// Index of the shard that holds `k` (meaningful when `k` is held).
    pub open spec fn home(&self, k: K) -> int {
        home_of(self.shard_maps(), k)
    }

    /// No key is stored in two shards.
    pub open spec fn keys_apart(&self) -> bool {
        apart(self.shard_maps())
    }

    /// `i` is a shard index a key can route to: a `DefaultHasher` digest
    /// masked by the shard count.
    pub open spec fn is_route(&self, i: int) -> bool {
        exists|h: u64| is_digest(h) && i == (h as usize) & ((self.shards().len() - 1) as usize)
    }

    /// Well-formedness: the shard layout follows the capacity, every shard is
    /// well formed with the per-shard capacity.
    pub closed spec fn wf(&self) -> bool {
        &&& obeys_key_model::<K>()
        &&& self.sharded.wf()
        &&& self.capacity > 0
        &&& self.sharded@.len() == shard_count_spec(self.capacity as nat)
        &&& forall|i: int|
            0 <= i < self.sharded@.len() ==> {
                &&& #[trigger] self.sharded@[i].wf()
                &&& self.sharded@[i].cap() == per_shard_spec(
                    self.capacity as nat,
                    shard_count_spec(self.capacity as nat),
                )
            }
    }

    /// The capacity bound holds in every well-formed cache.
    pub proof fn lemma_bounded(&self)
        requires
            self.wf(),
        ensures
            self.entry_count() <= self.cap(),
            self.shards().len() >= 1,
    {
        let n = self.sharded@.len();
        let per = per_shard_spec(self.capacity as nat, n);
        assert forall|i: int| 0 <= i < self.shard_lens().len() implies #[trigger] self.shard_lens()[i]
            <= per by {
            assert(self.sharded@[i].wf());
            self.sharded@[i].lemma_wf();
        }
        lemma_sum_bound(self.shard_lens(), per);
        lemma_shards_fit(self.capacity as nat);
    }

    /// The shard layout of a well-formed cache: `shard_count_spec(cap())`
    /// shards, each well formed with the per-shard capacity; below 32 entries
    /// that is a single shard holding the whole capacity and every entry.
    pub proof fn lemma_layout(&self)
        requires
            self.wf(),
        ensures
            self.cap() >= 1,
            self.shards().len() == shard_count_spec(self.cap()),
            forall|i: int|
                0 <= i < self.shards().len() ==> {
                    &&& #[trigger] self.shards()[i].wf()
                    &&& self.shards()[i].cap() == per_shard_spec(self.cap(), shard_count_spec(self.cap()))
                },
            self.cap() < 32 ==> {
                &&& self.shards().len() == 1
                &&& self.shards()[0].cap() == self.cap()
                &&& self.entry_count() == self.shards()[0].contents().len()
            },
    {
        if self.capacity < 32 {
            let lens = self.shard_lens();
            assert(lens.len() == 1);
            assert(lens.drop_last() =~= Seq::<nat>::empty());
            assert(sum_of(lens.drop_last()) == 0);
            assert(lens.last() == self.shards()[0].contents().len());
            assert(per_shard_spec(self.cap(), 1) == self.cap());
            assert(sum_of(lens) == lens.last());
            assert(self.sharded@[0].wf());
        }
    }

    /// Replacing one shard by a well-formed shard of the same capacity keeps
    /// the cache well formed.
    proof fn lemma_shard_update(&self, old: Self, i: int)
        requires
            old.wf(),
            0 <= i < old.shards().len(),
            self.capacity == old.capacity,
            self.sharded.wf(),
            self.sharded@ == old.sharded@.update(i, self.sharded@[i]),
            self.sharded@[i].wf(),
            self.sharded@[i].cap() == old.sharded@[i].cap(),
        ensures
            self.wf(),
    {
        assert forall|j: int| 0 <= j < self.sharded@.len() implies {
            &&& #[trigger] self.sharded@[j].wf()
            &&& self.sharded@[j].cap() == per_shard_spec(
                self.capacity as nat,
                shard_count_spec(self.capacity as nat),
            )
        } by {
            assert(old.sharded@[j].wf());
        }
    }
}

/// What `get` does to the cache as a whole: it returns a clone of the value
/// stored under `k`, and `None` exactly when `k` is not stored; no entry
/// changes.
pub open spec fn lfu_cache_get<K, V: Clone>(old: LfuCache<K, V>, new: LfuCache<K, V>, k: K, r: Option<V>) -> bool {
    &&& (r is Some) == old.holds(k)
    &&& r is Some ==> cloned(old.value_of(k), r->0)
    &&& new.shard_maps() == old.shard_maps()
    &&& new.keys_apart()
}

/// What `insert` does to the cache as a whole: `k` is stored with `v`, the
/// previous value is returned, a new key goes to the shard its hash routes
/// to, and every other entry either stays as it was or is evicted.
pub open spec fn lfu_cache_insert<K, V>(old: LfuCache<K, V>, new: LfuCache<K, V>, k: K, v: V, r: Option<V>) -> bool {
    &&& r == (if old.holds(k) {
        Some(old.value_of(k))
    } else {
        None::<V>
    })
    &&& new.holds(k)
    &&& new.value_of(k) == v
    &&& !old.holds(k) ==> new.is_route(new.home(k))
    &&& forall|k2: K|
        k2 != k && #[trigger] new.holds(k2) ==> old.holds(k2) && new.value_of(k2) == old.value_of(k2)
    &&& new.keys_apart()
}

/// What `remove` does to the cache as a whole: the value stored under `k` is
/// returned and `k` is gone; every other entry stays as it was.
pub open spec fn lfu_cache_remove<K, V>(old: LfuCache<K, V>, new: LfuCache<K, V>, k: K, r: Option<V>) -> bool {
    &&& r == (if old.holds(k) {
        Some(old.value_of(k))
    } else {
        None::<V>
    })
    &&& !new.holds(k)
    &&& forall|k2: K|
        k2 != k ==> (#[trigger] new.holds(k2) == old.holds(k2) && (new.holds(k2) ==> new.value_of(k2)
            == old.value_of(k2)))
    &&& new.keys_apart()
}

impl<K: Copy + Eq + Hash, V: Clone> LfuCache<K, V> {
    /// Fresh shards hold nothing.
    proof fn lemma_empty_apart(&self)
        requires
            self.all_shards_fresh(),
        ensures
            self.keys_apart(),
            forall|k: K| !#[trigger] self.holds(k),
    {
        assert forall|k: K, i: int| !#[trigger] stored_at(self.shard_maps(), k, i) by {
            if 0 <= i < self.shards().len() {
                assert(self.shards()[i].contents() == Map::<K, V>::empty());
            }
        }
    }

    /// The shard holding `key`, if any: its routed shard first, then the others.
    fn locate(&self, key: &K) -> (r: Option<usize>)
        requires
            self.wf(),
        ensures
            r matches Some(j) ==> j < self.shards().len() && stored_at(self.shard_maps(), *key, j as int),
            r is None ==> !self.holds(*key),
    {
        let i = self.sharded.shard_index(key);
        proof {
            assert(self.sharded@[i as int].wf());
        }
        if self.sharded.shard(i).contains_key(key) {
            return Some(i);
        }
        let n = self.sharded.len();
        let mut j: usize = 0;
        while j < n
            invariant
                self.wf(),
                n == self.shards().len(),
                j <= n,
                forall|a: int| 0 <= a < j ==> !#[trigger] stored_at(self.shard_maps(), *key, a),
            decreases n - j,
        {
            proof {
                assert(self.sharded@[j as int].wf());
            }
            if self.sharded.shard(j).contains_key(key) {
                return Some(j);
            }
            j = j + 1;
        }
        None
    }

    fn build(capacity: usize) -> (r: Self)
        requires
            capacity > 0,
            obeys_key_model::<K>(),
        ensures
            r.wf(),
            r.cap() == capacity,
            r.entry_count() == 0,
            r.clocks_fresh(),
            r.all_shards_fresh(),
            r.keys_apart(),
    {
        let num_shards = shard_count(capacity);
        let per_shard = per_shard_capacity(capacity, num_shards);
        let make_shard = (|_i: usize| -> (s: LfuShard<K, V>)
            ensures
                s.wf(),
                s.cap() == per_shard,
                s.clock() == 0,
                s.contents().len() == 0,
            { LfuShard::with_capacity(per_shard) });
        let sharded = Sharded::from_factory(num_shards, make_shard);
        let r = LfuCache { capacity, sharded };
        proof {
            assert forall|i: int| 0 <= i < r.shard_lens().len() implies #[trigger] r.shard_lens()[i]
                == 0 by {
                assert(r.sharded@[i].contents().len() == 0);
            }
            lemma_sum_zero(r.shard_lens());
            assert forall|i: int| 0 <= i < r.shards().len() implies #[trigger] r.shards()[i].clock() < u64::MAX by {
                assert(r.sharded@[i].clock() == 0);
            }
            assert forall|i: int| 0 <= i < r.shards().len() implies {
                &&& #[trigger] r.shards()[i].contents() == Map::<K, V>::empty()
                &&& r.shards()[i].clock() == 0
            } by {
                assert(r.sharded@[i].wf());
                r.sharded@[i].lemma_wf();
                assert(r.sharded@[i].contents() =~= Map::<K, V>::empty());
            }
        }
        proof {
            r.lemma_empty_apart();
        }
        r
    }

    /// Creates a cache with the given capacity; a capacity of zero is refused.
    pub fn new(capacity: usize) -> (r: Result<Self, CacheError>)
        requires
            obeys_key_model::<K>(),
        ensures
            capacity == 0 ==> r == Err::<Self, CacheError>(CacheError::InvalidCapacity),
            capacity > 0 ==> (r matches Ok(c) && c.wf() && c.cap() == capacity && c.entry_count() == 0
                && c.clocks_fresh() && c.all_shards_fresh() && c.keys_apart()),
    {
        if capacity == 0 {
            return Err(CacheError::InvalidCapacity);
        }
        Ok(Self::build(capacity))
    }

    /// Creates a cache with the given non-zero capacity.
    pub fn with_capacity(capacity: usize) -> (r: Self)
        requires
            capacity > 0,
            obeys_key_model::<K>(),
        ensures
            r.wf(),
            r.cap() == capacity,
            r.entry_count() == 0,
            r.clocks_fresh(),
            r.all_shards_fresh(),
            r.keys_apart(),
    {
        Self::build(capacity)
    }

    /// `get` on the shard with index `i`.
    pub fn get_in_shard(&mut self, i: usize, key: &K) -> (r: Option<V>)
        requires
            old(self).wf(),
            i < old(self).shards().len(),
            old(self).shards()[i as int].clock() < u64::MAX,
        ensures
            final(self).wf(),
            final(self).cap() == old(self).cap(),
            lfu_get_step(old(self).shards()[i as int], final(self).shards()[i as int], *key, r),
            final(self).shards() == old(self).shards().update(i as int, final(self).shards()[i as int]),
    {
        proof {
            assert(self.sharded@[i as int].wf());
        }
        let r = self.sharded.shard_mut(i).get(key);
        proof {
            self.lemma_shard_update(*old(self), i as int);
        }
        r
    }

    /// `insert` on the shard with index `i`.
    pub fn insert_in_shard(&mut self, i: usize, key: K, value: V) -> (r: Option<V>)
        requires
            old(self).wf(),
            i < old(self).shards().len(),
            old(self).shards()[i as int].clock() < u64::MAX,
        ensures
            final(self).wf(),
            final(self).cap() == old(self).cap(),
            lfu_insert_step(old(self).shards()[i as int], final(self).shards()[i as int], key, value, r),
            final(self).shards() == old(self).shards().update(i as int, final(self).shards()[i as int]),
    {
        proof {
            assert(self.sharded@[i as int].wf());
        }
        let r = self.sharded.shard_mut(i).insert(key, value);
        proof {
            self.lemma_shard_update(*old(self), i as int);
        }
        r
    }

    /// `remove` on the shard with index `i`.
    pub fn remove_in_shard(&mut self, i: usize, key: &K) -> (r: Option<V>)
        requires
            old(self).wf(),
            i < old(self).shards().len(),
        ensures
            final(self).wf(),
            final(self).cap() == old(self).cap(),
            lfu_remove_step(old(self).shards()[i as int], final(self).shards()[i as int], *key, r),
            final(self).shards() == old(self).shards().update(i as int, final(self).shards()[i as int]),
    {
        proof {
            assert(self.sharded@[i as int].wf());
        }
        let r = self.sharded.shard_mut(i).remove(key);
        proof {
            self.lemma_shard_update(*old(self), i as int);
        }
        r
    }
}

impl<K: Copy + Eq + Hash, V: Clone> Cache<K, V> for LfuCache<K, V> {
    open spec fn inv(&self) -> bool {
        self.wf() && self.keys_apart()
    }

    open spec fn ready(&self) -> bool {
        self.wf() && self.clocks_fresh() && self.keys_apart()
    }

    open spec fn entries(&self) -> nat {
        self.entry_count()
    }

    open spec fn load(&self) -> nat {
        self.entry_count()
    }

    open spec fn bound(&self) -> nat {
        self.cap()
    }

    proof fn lemma_inv(&self) {
        self.lemma_bounded();
    }

    proof fn lemma_ready(&self) {
    }

    fn get(&mut self, key: &K) -> (r: Option<V>)
        ensures
            exists|i: int|
                0 <= i < old(self).shards().len() && lfu_get_step(
                    old(self).shards()[i],
                    final(self).shards()[i],
                    *key,
                    r,
                ) && final(self).shards() == old(self).shards().update(i, final(self).shards()[i]),
            lfu_cache_get(*old(self), *final(self), *key, r),
            old(self).holds(*key) ==> lfu_get_step(
                old(self).shards()[old(self).home(*key)],
                final(self).shards()[old(self).home(*key)],
                *key,
                r,
            ) && final(self).shards() == old(self).shards().update(
                old(self).home(*key),
                final(self).shards()[old(self).home(*key)],
            ),
            !old(self).holds(*key) ==> exists|i: int|
                0 <= i < old(self).shards().len() && old(self).is_route(i) && lfu_get_step(
                    old(self).shards()[i],
                    final(self).shards()[i],
                    *key,
                    r,
                ) && final(self).shards() == old(self).shards().update(i, final(self).shards()[i]),
    {
        let i = match self.locate(key) {
            Some(j) => j,
            None => {
                let i = self.sharded.shard_index(key);
                proof {
                    assert(self.is_route(i as int));
                }
                i
            },
        };
        proof {
            assert(self.shards()[i as int].clock() < u64::MAX);
        }
        let r = self.get_in_shard(i, key);
        proof {
            assert(self.shard_maps() =~= old(self).shard_maps());
            if old(self).holds(*key) {
                let h = old(self).home(*key);
                assert(stored_at(old(self).shard_maps(), *key, h));
                lemma_home(old(self).shard_maps(), *key, h);
                lemma_home(old(self).shard_maps(), *key, i as int);
            } else {
                assert(!stored_at(old(self).shard_maps(), *key, i as int));
            }
        }
        r
    }

    fn insert(&mut self, key: K, value: V) -> (r: Option<V>)
        ensures
            exists|i: int|
                0 <= i < old(self).shards().len() && lfu_insert_step(
                    old(self).shards()[i],
                    final(self).shards()[i],
                    key,
                    value,
                    r,
                ) && final(self).shards() == old(self).shards().update(i, final(self).shards()[i]),
            lfu_cache_insert(*old(self), *final(self), key, value, r),
            old(self).holds(key) ==> lfu_insert_step(
                old(self).shards()[old(self).home(key)],
                final(self).shards()[old(self).home(key)],
                key,
                value,
                r,
            ) && final(self).shards() == old(self).shards().update(
                old(self).home(key),
                final(self).shards()[old(self).home(key)],
            ),
            !old(self).holds(key) ==> exists|i: int|
                0 <= i < old(self).shards().len() && old(self).is_route(i) && lfu_insert_step(
                    old(self).shards()[i],
                    final(self).shards()[i],
                    key,
                    value,
                    r,
                ) && final(self).shards() == old(self).shards().update(i, final(self).shards()[i]),
    {
        let located = self.locate(&key);
        let i = match located {
            Some(j) => j,
            None => {
                let i = self.sharded.shard_index(&key);
                proof {
                    assert(self.is_route(i as int));
                }
                i
            },
        };
        proof {
            assert(self.shards()[i as int].clock() < u64::MAX);
        }
        let r = self.insert_in_shard(i, key, value);
        proof {
            let ms = old(self).shard_maps();
            let m2 = self.shards()[i as int].contents();
            assert(self.shard_maps() =~= ms.update(i as int, m2));
            assert(ms[i as int] == old(self).shards()[i as int].contents());
            if located is Some {
                lemma_home(ms, key, i as int);
            } else {
                assert(!stored_at(ms, key, i as int));
            }
            lemma_replace(ms, m2, i as int, key);
            lemma_home(self.shard_maps(), key, i as int);
        }
        r
    }

    fn remove(&mut self, key: &K) -> (r: Option<V>)
        ensures
            exists|i: int|
                0 <= i < old(self).shards().len() && lfu_remove_step(
                    old(self).shards()[i],
                    final(self).shards()[i],
                    *key,
                    r,
                ) && final(self).shards() == old(self).shards().update(i, final(self).shards()[i]),
            lfu_cache_remove(*old(self), *final(self), *key, r),
            old(self).holds(*key) ==> lfu_remove_step(
                old(self).shards()[old(self).home(*key)],
                final(self).shards()[old(self).home(*key)],
                *key,
                r,
            ) && final(self).shards() == old(self).shards().update(
                old(self).home(*key),
                final(self).shards()[old(self).home(*key)],
            ),
    {
        let located = self.locate(key);
        let i = match located {
            Some(j) => j,
            None => {
                let i = self.sharded.shard_index(key);
                proof {
                    assert(self.is_route(i as int));
                }
                i
            },
        };
        let r = self.remove_in_shard(i, key);
        proof {
            let ms = old(self).shard_maps();
            let m2 = self.shards()[i as int].contents();
            assert(self.shard_maps() =~= ms.update(i as int, m2));
            assert(ms[i as int] == old(self).shards()[i as int].contents());
            if located is Some {
                lemma_home(ms, *key, i as int);
            } else {
                assert(!stored_at(ms, *key, i as int));
            }
            lemma_replace(ms, m2, i as int, *key);
        }
        r
    }

    fn contains_key(&mut self, key: &K) -> (r: bool)
        ensures
            *final(self) == *old(self),
            exists|i: int|
                0 <= i < old(self).shards().len() && r == old(self).shards()[i].contents().contains_key(
                    *key,
                ),
            r == old(self).holds(*key),
    {
        match self.locate(key) {
            Some(j) => {
                proof {
                    assert(stored_at(self.shard_maps(), *key, j as int));
                }
                true
            },
            None => {
                proof {
                    self.lemma_bounded();
                    assert(!stored_at(self.shard_maps(), *key, 0));
                }
                false
            },
        }
    }

    fn len(&mut self) -> (r: usize)
        ensures
            *final(self) == *old(self),
    {
        let n = self.sharded.len();
        let ghost lens = self.shard_lens();
        proof {
            self.lemma_bounded();
        }
        let mut total: usize = 0;
        let mut i: usize = 0;
        while i < n
            invariant
                self.wf(),
                n == self.shards().len(),
                lens == self.shard_lens(),
                i <= n,
                total == sum_of(lens.take(i as int)),
                sum_of(lens) <= self.cap(),
                self.cap() <= usize::MAX,
            decreases n - i,
        {
            proof {
                lemma_sum_prefix(lens, i as int);
                assert(self.sharded@[i as int].wf());
                assert(lens[i as int] == self.shards()[i as int].contents().len());
            }
            total = total + self.sharded.shard(i).len();
            i = i + 1;
        }
        proof {
            assert(lens.take(n as int) =~= lens);
        }
        total
    }

    fn is_empty(&mut self) -> (r: bool)
        ensures
            *final(self) == *old(self),
    {
        self.len() == 0
    }

    fn clear(&mut self)
        ensures
            final(self).clocks_fresh(),
            final(self).all_shards_fresh(),
    {
        let n = self.sharded.len();
        let mut i: usize = 0;
        while i < n
            invariant
                self.wf(),
                n == self.shards().len(),
                self.cap() == old(self).cap(),
                i <= n,
                forall|j: int| 0 <= j < i ==> #[trigger] self.shards()[j].contents() == Map::<K, V>::empty(),
                forall|j: int| 0 <= j < i ==> #[trigger] self.shards()[j].clock() == 0,
            decreases n - i,
        {
            proof {
                assert(self.sharded@[i as int].wf());
            }
            let ghost before = *self;
            self.sharded.shard_mut(i).clear();
            proof {
                self.lemma_shard_update(before, i as int);
            }
            i = i + 1;
        }
        proof {
            assert forall|j: int| 0 <= j < self.shard_lens().len() implies #[trigger] self.shard_lens()[j]
                == 0 by {
                assert(self.shards()[j].contents() == Map::<K, V>::empty());
            }
            lemma_sum_zero(self.shard_lens());
            assert forall|j: int| 0 <= j < self.shards().len() implies #[trigger] self.shards()[j].clock() < u64::MAX by {
                assert(self.shards()[j].clock() == 0);
            }
            self.lemma_empty_apart();
        }
    }

    fn capacity(&self) -> (r: usize) {
        self.capacity
    }
}

/// Read after write: a `get` right after an `insert` of `k` into the same shard
/// returns a clone of the inserted value.
pub proof fn lemma_lfu_insert_then_get<K, V: Clone>(
    s0: LfuShard<K, V>,
    s1: LfuShard<K, V>,
    s2: LfuShard<K, V>,
    k: K,
    v: V,
    r1: Option<V>,
    r2: Option<V>,
)
    requires
        s0.wf(),
        lfu_insert_step(s0, s1, k, v, r1),
        lfu_get_step(s1, s2, k, r2),
    ensures
        r2 is Some,
        cloned(v, r2->0),
{
    if !s0.contents().contains_key(k) && s0.contents().len() >= s0.cap() {
        let victim = choose|victim: K|
            {
                &&& is_lfu_victim(s0.counts(), s0.ages(), victim)
                &&& s1.contents() == s0.contents().remove(victim).insert(k, v)
                &&& s1.counts() == s0.counts().remove(victim).insert(k, 1)
                &&& s1.ages() == s0.ages().remove(victim).insert(k, s1.clock())
            };
        assert(s1.contents().contains_key(k));
    }
}

/// Remove then query: after `remove(k)` the shard no longer holds `k`, and a
/// following `get(k)` misses.
pub proof fn lemma_lfu_remove_then_get<K, V: Clone>(
    s0: LfuShard<K, V>,
    s1: LfuShard<K, V>,
    s2: LfuShard<K, V>,
    k: K,
    r1: Option<V>,
    r2: Option<V>,
)
    requires
        lfu_remove_step(s0, s1, k, r1),
        lfu_get_step(s1, s2, k, r2),
    ensures
        !s1.contents().contains_key(k),
        r2 is None,
{
}

/// Frequency protects: a key whose `(count, age)` priority is above that of
/// another stored key survives the insertion of any key.
pub proof fn lemma_lfu_frequent_survives<K, V>(
    s0: LfuShard<K, V>,
    s1: LfuShard<K, V>,
    k: K,
    other: K,
    k2: K,
    v2: V,
    r: Option<V>,
)
    requires
        s0.wf(),
        s0.contents().contains_key(k),
        s0.contents().contains_key(other),
        !prio_le((s0.counts()[k], s0.ages()[k]), (s0.counts()[other], s0.ages()[other])),
        lfu_insert_step(s0, s1, k2, v2, r),
    ensures
        s1.contents().contains_key(k),
{
    s0.lemma_wf();
    if !s0.contents().contains_key(k2) && s0.contents().len() >= s0.cap() {
        let victim = choose|victim: K|
            {
                &&& is_lfu_victim(s0.counts(), s0.ages(), victim)
                &&& s1.contents() == s0.contents().remove(victim).insert(k2, v2)
                &&& s1.counts() == s0.counts().remove(victim).insert(k2, 1)
                &&& s1.ages() == s0.ages().remove(victim).insert(k2, s1.clock())
            };
        assert(s0.counts().contains_key(other));
        assert(victim != k);
    }
}

/// Read after write on a cache of capacity below 32, which has a single shard:
/// a `get` right after an `insert` returns a clone of the inserted value.
pub proof fn lemma_lfu_cache_insert_then_get<K, V: Clone>(
    c0: LfuCache<K, V>,
    c1: LfuCache<K, V>,
    c2: LfuCache<K, V>,
    k: K,
    v: V,
    r1: Option<V>,
    r2: Option<V>,
)
    requires
        c0.wf(),
        c0.cap() < 32,
        exists|i: int|
            0 <= i < c0.shards().len() && lfu_insert_step(c0.shards()[i], c1.shards()[i], k, v, r1)
                && c1.shards() == c0.shards().update(i, c1.shards()[i]),
        exists|i: int|
            0 <= i < c1.shards().len() && lfu_get_step(c1.shards()[i], c2.shards()[i], k, r2)
                && c2.shards() == c1.shards().update(i, c2.shards()[i]),
    ensures
        r2 is Some,
        cloned(v, r2->0),
{
    c0.lemma_layout();
    lemma_lfu_insert_then_get(c0.shards()[0], c1.shards()[0], c2.shards()[0], k, v, r1, r2);
}

/// Below its capacity a shard evicts nothing: inserting a new key keeps every
/// stored entry and adds the new one.
pub proof fn lemma_lfu_insert_with_room_evicts_nothing<K, V>(
    s0: LfuShard<K, V>,
    s1: LfuShard<K, V>,
    k: K,
    v: V,
    r: Option<V>,
)
    requires
        s0.wf(),
        !s0.contents().contains_key(k),
        s0.contents().len() < s0.cap(),
        lfu_insert_step(s0, s1, k, v, r),
    ensures
        r is None,
        s1.contents() == s0.contents().insert(k, v),
        s1.contents().len() == s0.contents().len() + 1,
{
    s0.lemma_wf();
}

/// Read after write, at every capacity: a `get` right after an `insert` of `k`
/// returns a clone of the inserted value, and `k` is stored.
pub proof fn lemma_lfu_read_after_write<K, V: Clone>(
    c0: LfuCache<K, V>,
    c1: LfuCache<K, V>,
    c2: LfuCache<K, V>,
    k: K,
    v: V,
    r1: Option<V>,
    r2: Option<V>,
)
    requires
        lfu_cache_insert(c0, c1, k, v, r1),
        lfu_cache_get(c1, c2, k, r2),
    ensures
        c1.holds(k),
        r2 is Some,
        cloned(v, r2->0),
{
}

/// Remove after write, at every capacity: removing `k` right after inserting
/// it returns the inserted value, and `k` is then no longer stored.
pub proof fn lemma_lfu_remove_after_write<K, V>(
    c0: LfuCache<K, V>,
    c1: LfuCache<K, V>,
    c2: LfuCache<K, V>,
    k: K,
    v: V,
    r1: Option<V>,
    r2: Option<V>,
)
    requires
        lfu_cache_insert(c0, c1, k, v, r1),
        lfu_cache_remove(c1, c2, k, r2),
    ensures
        r2 == Some(v),
        !c2.holds(k),
{
}

/// Overwrite, at every capacity: a second `insert` of `k` returns the value
/// the first one stored, and leaves the new value in its place.
pub proof fn lemma_lfu_overwrite_returns_previous<K, V>(
    c0: LfuCache<K, V>,
    c1: LfuCache<K, V>,
    c2: LfuCache<K, V>,
    k: K,
    v1: V,
    v2: V,
    r1: Option<V>,
    r2: Option<V>,
)
    requires
        lfu_cache_insert(c0, c1, k, v1, r1),
        lfu_cache_insert(c1, c2, k, v2, r2),
    ensures
        r2 == Some(v1),
        c2.holds(k),
        c2.value_of(k) == v2,
{
}

/// Read after remove, at every capacity: a `get` right after removing `k`
/// misses.
pub proof fn lemma_lfu_get_after_remove<K, V: Clone>(
    c0: LfuCache<K, V>,
    c1: LfuCache<K, V>,
    c2: LfuCache<K, V>,
    k: K,
    r1: Option<V>,
    r2: Option<V>,
)
    requires
        lfu_cache_remove(c0, c1, k, r1),
        lfu_cache_get(c1, c2, k, r2),
    ensures
        r2 is None,
{
}

} // verus!
