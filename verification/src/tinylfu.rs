//! TinyLFU cache: a Count-Min Sketch admission filter in front of an
//! arena-backed LRU main cache.

use vstd::prelude::*;
use core::hash::Hash;
use vstd::std_specs::hash::obeys_key_model;
use crate::cache::Cache;
use crate::error::CacheError;
use crate::recency::{RecencyList, seq_to_front, seq_without};
use crate::sketch::{
    CountMinSketch,
    valid_cols,
    estimate_spec,
    bumped,
    halved,
    sat_inc,
    lemma_increment_raises_estimate,
};

verus! {

/// A bounded cache with **admission control**.
///
/// Every key the cache observes, hit or miss, feeds a Count-Min Sketch. On
/// capacity overflow an incoming key is admitted only if its estimated
/// frequency exceeds that of the least-recently-used entry, which it then
/// replaces; otherwise the insert is rejected and the value dropped. Updates
/// of keys already present always succeed.
pub struct TinyLfuCache<K, V> {
    capacity: usize,
    list: RecencyList<K, Slot<V>>,
    sketch: CountMinSketch,
}

/// `new` is `old` after one observation of the key with columns `cols`: the
/// counters of those columns are bumped, and every `window()` observations all
/// counters are halved.
pub open spec fn observed_at(old: CountMinSketch, new: CountMinSketch, cols: Seq<usize>) -> bool {
    &&& new.wf()
    &&& new.width() == old.width()
    &&& new.window() == old.window()
    &&& valid_cols(cols, old.width())
    &&& old.samples() + 1 >= old.window() ==> new.counters() == halved(
        bumped(old.counters(), old.width(), cols),
    ) && new.samples() == 0
    &&& old.samples() + 1 < old.window() ==> new.counters() == bumped(old.counters(), old.width(), cols)
        && new.samples() == old.samples() + 1
}

/// `new` is `old` after one observation of some key.
pub open spec fn observed(old: CountMinSketch, new: CountMinSketch) -> bool {
    exists|cols: Seq<usize>| observed_at(old, new, cols)
}

/// A stored entry: the value and the sketch columns its key was observed at
/// when it was admitted.
struct Slot<V> {
    value: V,
    cols: Vec<usize>,
}

impl<K, V> TinyLfuCache<K, V> {
    /// Well-formed: the main cache is within capacity, the sketch is well
    /// formed and shaped for the capacity, and every recorded set of columns
    /// fits the sketch.
    pub closed spec fn wf(&self) -> bool {
        &&& self.list.wf()
        &&& self.sketch.wf()
        &&& self.sketch.sized_for(self.capacity as nat)
        &&& self.capacity > 0
        &&& self.list.keys().len() <= self.capacity
        &&& forall|k: K|
            #[trigger] self.list.contents().contains_key(k) ==> valid_cols(
                self.list.contents()[k].cols@,
                self.sketch.width(),
            )
    }

    /// Keys of the main cache, from most- to least-recently used.
    pub closed spec fn keys(&self) -> Seq<K> {
        self.list.keys()
    }

    /// Stored values.
    pub closed spec fn contents(&self) -> Map<K, V> {
        self.list.contents().map_values(|e: Slot<V>| e.value)
    }

    /// Sketch columns of each stored key, recorded when it was admitted; every
    /// later access of the key is observed at these columns.
    pub closed spec fn columns(&self) -> Map<K, Seq<usize>> {
        self.list.contents().map_values(|e: Slot<V>| e.cols@)
    }

    /// The frequency sketch.
    pub closed spec fn sketch(&self) -> CountMinSketch {
        self.sketch
    }

    /// Configured capacity.
    pub closed spec fn cap(&self) -> nat {
        self.capacity as nat
    }

    /// Facts every well-formed cache satisfies.
    pub proof fn lemma_wf(&self)
        requires
            self.wf(),
        ensures
            self.keys().no_duplicates(),
            self.keys().len() == self.contents().len(),
            forall|k: K| #[trigger] self.keys().contains(k) <==> self.contents().contains_key(k),
            self.columns().dom() == self.contents().dom(),
            forall|k: K|
                #[trigger] self.columns().contains_key(k) ==> valid_cols(self.columns()[k], self.sketch().width()),
            self.keys().len() <= self.cap(),
            self.cap() > 0,
            self.sketch().wf(),
            self.sketch().sized_for(self.cap()),
    {
        self.list.lemma_view();
        assert(self.contents().dom() =~= self.list.contents().dom());
        assert(self.columns().dom() =~= self.list.contents().dom());
    }
}

/// What `get` does: the key is observed by the sketch, a stored key at its
/// recorded columns; a hit moves the key to the front and returns a clone of
/// its value.
pub open spec fn tinylfu_get_step<K, V: Clone>(old: TinyLfuCache<K, V>, new: TinyLfuCache<K, V>, k: K, r: Option<V>) -> bool {
    &&& new.cap() == old.cap()
    &&& new.contents() == old.contents()
    &&& new.columns() == old.columns()
    &&& if old.contents().contains_key(k) {
        &&& observed_at(old.sketch(), new.sketch(), old.columns()[k])
        &&& r is Some
        &&& cloned(old.contents()[k], r->0)
        &&& new.keys() == seq_to_front(old.keys(), k)
    } else {
        &&& observed(old.sketch(), new.sketch())
        &&& r is None
        &&& new.keys() == old.keys()
    }
}

/// What `insert` does: the key is observed by the sketch; an existing key is
/// observed at its recorded columns, updated and moved to the front; a new key
/// is observed at some columns, which are recorded for it, and added at the
/// front when there is room; at a full cache it is added only if its estimate
/// exceeds the estimate of the least-recently-used key at that key's recorded
/// columns, which it then evicts.
pub open spec fn tinylfu_insert_step<K, V>(
    old: TinyLfuCache<K, V>,
    new: TinyLfuCache<K, V>,
    k: K,
    v: V,
    r: Option<V>,
) -> bool {
    &&& new.cap() == old.cap()
    &&& if old.contents().contains_key(k) {
        &&& observed_at(old.sketch(), new.sketch(), old.columns()[k])
        &&& r == Some(old.contents()[k])
        &&& new.keys() == seq_to_front(old.keys(), k)
        &&& new.contents() == old.contents().insert(k, v)
        &&& new.columns() == old.columns()
    } else if old.keys().len() >= old.cap() {
        &&& r is None
        &&& exists|cols: Seq<usize>|
            {
                &&& observed_at(old.sketch(), new.sketch(), cols)
                &&& if estimate_spec(new.sketch().counters(), new.sketch().width(), cols) > estimate_spec(
                    new.sketch().counters(),
                    new.sketch().width(),
                    old.columns()[old.keys().last()],
                ) {
                    &&& new.keys() == seq![k] + old.keys().drop_last()
                    &&& new.contents() == old.contents().remove(old.keys().last()).insert(k, v)
                    &&& new.columns() == old.columns().remove(old.keys().last()).insert(k, cols)
                } else {
                    &&& new.keys() == old.keys()
                    &&& new.contents() == old.contents()
                    &&& new.columns() == old.columns()
                }
            }
    } else {
        &&& r is None
        &&& exists|cols: Seq<usize>|
            {
                &&& observed_at(old.sketch(), new.sketch(), cols)
                &&& new.keys() == seq![k] + old.keys()
                &&& new.contents() == old.contents().insert(k, v)
                &&& new.columns() == old.columns().insert(k, cols)
            }
    }
}

/// What `remove` does; the sketch is untouched.
pub open spec fn tinylfu_remove_step<K, V>(old: TinyLfuCache<K, V>, new: TinyLfuCache<K, V>, k: K, r: Option<V>) -> bool {
    &&& new.cap() == old.cap()
    &&& new.sketch() == old.sketch()
    &&& r == (if old.contents().contains_key(k) {
        Some(old.contents()[k])
    } else {
        None::<V>
    })
    &&& new.keys() == seq_without(old.keys(), k)
    &&& new.contents() == old.contents().remove(k)
    &&& new.columns() == old.columns().remove(k)
}

impl<K: Copy + Eq + Hash, V: Clone> TinyLfuCache<K, V> {
    fn build(capacity: usize) -> (r: Self)
        requires
            capacity > 0,
            capacity <= usize::MAX / 16,
            obeys_key_model::<K>(),
        ensures
            r.wf(),
            r.cap() == capacity,
            r.keys() == Seq::<K>::empty(),
            r.contents() == Map::<K, V>::empty(),
            r.columns() == Map::<K, Seq<usize>>::empty(),
            r.sketch().sized_for(capacity as nat),
            r.sketch().is_zeroed(),
    {
        let r = TinyLfuCache {
            capacity,
            list: RecencyList::new(capacity),
            sketch: CountMinSketch::new(capacity),
        };
        proof {
            assert(r.contents() =~= Map::<K, V>::empty());
            assert(r.columns() =~= Map::<K, Seq<usize>>::empty());
        }
        r
    }

    /// Creates a cache with the given entry capacity; a capacity of zero is
    /// refused.
    pub fn new(capacity: usize) -> (r: Result<Self, CacheError>)
        requires
            obeys_key_model::<K>(),
            capacity <= usize::MAX / 16,
        ensures
            capacity == 0 ==> r == Err::<Self, CacheError>(CacheError::InvalidCapacity),
            capacity > 0 ==> (r matches Ok(c) && c.wf() && c.cap() == capacity && c.keys()
                == Seq::<K>::empty() && c.contents() == Map::<K, V>::empty() && c.columns() == Map::<
                K,
                Seq<usize>,
            >::empty() && c.sketch().sized_for(capacity as nat) && c.sketch().is_zeroed()),
    {
        if capacity == 0 {
            return Err(CacheError::InvalidCapacity);
        }
        Ok(Self::build(capacity))
    }

    /// Creates a cache with the given non-zero capacity.
    pub fn with_capacity(capacity: usize) -> (r: Self)
        requires
            capacity > 0,
            capacity <= usize::MAX / 16,
            obeys_key_model::<K>(),
        ensures
            r.wf(),
            r.cap() == capacity,
            r.keys() == Seq::<K>::empty(),
            r.contents() == Map::<K, V>::empty(),
            r.columns() == Map::<K, Seq<usize>>::empty(),
            r.sketch().sized_for(capacity as nat),
            r.sketch().is_zeroed(),
    {
        Self::build(capacity)
    }

    /// Removes `key`, returning its value.
    pub fn remove_entry(&mut self, key: &K) -> (r: Option<V>)
        requires
            old(self).wf(),
        ensures
            final(self).wf(),
            tinylfu_remove_step(*old(self), *final(self), *key, r),
    {
        proof {
            self.list.lemma_view();
            crate::recency::lemma_remove_value_contains(self.keys(), *key);
        }
        let r = match self.list.remove(key) {
            Some(e) => Some(e.value),
            None => None,
        };
        proof {
            assert(self.contents() =~= old(self).contents().remove(*key));
            assert(self.columns() =~= old(self).columns().remove(*key));
        }
        r
    }

    /// The recorded columns of the stored `key`, held in `slot`.
    fn recorded_columns(&self, slot: usize, Ghost(key): Ghost<K>) -> (r: Vec<usize>)
        requires
            self.wf(),
            self.list.holds(slot, key),
        ensures
            self.columns().contains_key(key),
            r@ == self.columns()[key],
            valid_cols(r@, self.sketch().width()),
    {
        let cols = self.list.value(slot, Ghost(key)).cols.clone();
        proof {
            assert(cols@ =~= self.list.contents()[key].cols@);
        }
        cols
    }
}

impl<K: Copy + Eq + Hash, V: Clone> Cache<K, V> for TinyLfuCache<K, V> {
    open spec fn inv(&self) -> bool {
        self.wf()
    }

    open spec fn ready(&self) -> bool {
        self.wf()
    }

    open spec fn entries(&self) -> nat {
        self.keys().len()
    }

    open spec fn load(&self) -> nat {
        self.keys().len()
    }

    open spec fn bound(&self) -> nat {
        self.cap()
    }

    proof fn lemma_inv(&self) {
    }

    proof fn lemma_ready(&self) {
    }

    fn get(&mut self, key: &K) -> (r: Option<V>)
        ensures
            tinylfu_get_step(*old(self), *final(self), *key, r),
    {
        proof {
            self.list.lemma_view();
        }
        match self.list.slot_of(key) {
            Some(idx) => {
                let cols = self.recorded_columns(idx, Ghost(*key));
                self.sketch.increment_cols(&cols);
                self.list.promote(idx, Ghost(*key));
                proof {
                    crate::lru::lemma_to_front_len(old(self).keys(), *key);
                    assert(self.contents() =~= old(self).contents());
                    assert(self.columns() =~= old(self).columns());
                }
                Some(self.list.value(idx, Ghost(*key)).value.clone())
            },
            None => {
                let cols = self.sketch.columns(key);
                self.sketch.increment_cols(&cols);
                proof {
                    assert(observed_at(old(self).sketch(), self.sketch(), cols@));
                }
                None
            },
        }
    }

    fn insert(&mut self, key: K, value: V) -> (r: Option<V>)
        ensures
            tinylfu_insert_step(*old(self), *final(self), key, value, r),
    {
        proof {
            self.list.lemma_view();
        }
        match self.list.slot_of(&key) {
            Some(idx) => {
                let cols = self.recorded_columns(idx, Ghost(key));
                self.sketch.increment_cols(&cols);
                let old_slot = self.list.replace(idx, Ghost(key), Slot { value, cols });
                self.list.promote(idx, Ghost(key));
                proof {
                    crate::lru::lemma_to_front_len(old(self).keys(), key);
                    assert(self.contents() =~= old(self).contents().insert(key, value));
                    assert(self.columns() =~= old(self).columns());
                }
                return Some(old_slot.value);
            },
            None => {},
        }
        let cols = self.sketch.columns(&key);
        self.sketch.increment_cols(&cols);
        if self.list.len() >= self.capacity {
            let candidate_freq = self.sketch.estimate_cols(&cols);
            let victim_key = match self.list.lru_key() {
                Some(k) => k,
                None => {
                    return None;
                },
            };
            proof {
                assert(self.keys().contains(victim_key)) by {
                    assert(self.keys()[self.keys().len() - 1] == victim_key);
                }
            }
            let victim_idx = match self.list.slot_of(&victim_key) {
                Some(i) => i,
                None => {
                    return None;
                },
            };
            let victim_cols = self.recorded_columns(victim_idx, Ghost(victim_key));
            let victim_freq = self.sketch.estimate_cols(&victim_cols);
            proof {
                assert(observed_at(old(self).sketch(), self.sketch(), cols@));
                assert(self.keys() == old(self).keys());
                assert(self.columns() == old(self).columns());
                assert(victim_key == old(self).keys().last());
                assert(victim_cols@ == old(self).columns()[old(self).keys().last()]);
            }
            if candidate_freq <= victim_freq {
                return None;
            }
            let ghost sketch_now = self.sketch;
            let _ = self.list.pop_lru();
            self.list.push_front(key, Slot { value, cols });
            proof {
                assert(self.sketch == sketch_now);
                assert(old(self).keys().len() >= old(self).cap());
                assert(observed_at(old(self).sketch(), self.sketch(), cols@));
                assert(candidate_freq == estimate_spec(self.sketch().counters(), self.sketch().width(), cols@));
                assert(victim_freq == estimate_spec(
                    self.sketch().counters(),
                    self.sketch().width(),
                    old(self).columns()[old(self).keys().last()],
                ));
                assert(self.keys() == seq![key] + old(self).keys().drop_last());
                assert(self.contents() =~= old(self).contents().remove(old(self).keys().last()).insert(
                    key,
                    value,
                ));
                assert(self.columns() =~= old(self).columns().remove(old(self).keys().last()).insert(
                    key,
                    cols@,
                ));
            }
            return None;
        }
        self.list.push_front(key, Slot { value, cols });
        proof {
            assert(self.contents() =~= old(self).contents().insert(key, value));
            assert(self.columns() =~= old(self).columns().insert(key, cols@));
        }
        None
    }

    fn remove(&mut self, key: &K) -> (r: Option<V>)
        ensures
            tinylfu_remove_step(*old(self), *final(self), *key, r),
    {
        self.remove_entry(key)
    }

    fn contains_key(&mut self, key: &K) -> (r: bool)
        ensures
            *final(self) == *old(self),
            r == old(self).contents().contains_key(*key),
    {
        self.list.contains(key)
    }

    fn len(&mut self) -> (r: usize)
        ensures
            *final(self) == *old(self),
    {
        self.list.len()
    }

    fn is_empty(&mut self) -> (r: bool)
        ensures
            *final(self) == *old(self),
    {
        self.len() == 0
    }

    fn clear(&mut self)
        ensures
            final(self).keys() == Seq::<K>::empty(),
            final(self).contents() == Map::<K, V>::empty(),
            final(self).columns() == Map::<K, Seq<usize>>::empty(),
            final(self).sketch().sized_for(old(self).cap()),
            final(self).sketch().is_zeroed(),
    {
        self.list.clear();
        self.sketch.reset();
        proof {
            assert(self.contents() =~= Map::<K, V>::empty());
            assert(self.columns() =~= Map::<K, Seq<usize>>::empty());
        }
    }

    fn capacity(&self) -> (r: usize) {
        self.capacity
    }
}

/// Updates are always admitted: re-inserting a stored key and then reading it
/// returns a clone of the new value.
pub proof fn lemma_tinylfu_update_then_get<K, V: Clone>(
    c0: TinyLfuCache<K, V>,
    c1: TinyLfuCache<K, V>,
    c2: TinyLfuCache<K, V>,
    k: K,
    v: V,
    r1: Option<V>,
    r2: Option<V>,
)
    requires
        c0.contents().contains_key(k),
        tinylfu_insert_step(c0, c1, k, v, r1),
        tinylfu_get_step(c1, c2, k, r2),
    ensures
        r1 == Some(c0.contents()[k]),
        r2 is Some,
        cloned(v, r2->0),
{
}

/// With room to spare there is no admission test: inserting a new key into a
/// cache that is not full stores it, and a following read returns a clone.
pub proof fn lemma_tinylfu_insert_with_room_then_get<K, V: Clone>(
    c0: TinyLfuCache<K, V>,
    c1: TinyLfuCache<K, V>,
    c2: TinyLfuCache<K, V>,
    k: K,
    v: V,
    r1: Option<V>,
    r2: Option<V>,
)
    requires
        c0.wf(),
        c0.keys().len() < c0.cap(),
        tinylfu_insert_step(c0, c1, k, v, r1),
        tinylfu_get_step(c1, c2, k, r2),
    ensures
        r2 is Some,
        cloned(v, r2->0),
{
}

/// A rejected admission leaves the stored entries exactly as they were.
pub proof fn lemma_tinylfu_rejection_keeps_entries<K, V>(
    c0: TinyLfuCache<K, V>,
    c1: TinyLfuCache<K, V>,
    k: K,
    v: V,
    r: Option<V>,
)
    requires
        c0.wf(),
        !c0.contents().contains_key(k),
        tinylfu_insert_step(c0, c1, k, v, r),
        !c1.contents().contains_key(k),
    ensures
        r is None,
        c1.keys() == c0.keys(),
        c1.contents() == c0.contents(),
{
    if c0.keys().len() >= c0.cap() {
        let cols = choose|cols: Seq<usize>|
            {
                &&& observed_at(c0.sketch(), c1.sketch(), cols)
                &&& if estimate_spec(c1.sketch().counters(), c1.sketch().width(), cols) > estimate_spec(
                    c1.sketch().counters(),
                    c1.sketch().width(),
                    c0.columns()[c0.keys().last()],
                ) {
                    &&& c1.keys() == seq![k] + c0.keys().drop_last()
                    &&& c1.contents() == c0.contents().remove(c0.keys().last()).insert(k, v)
                    &&& c1.columns() == c0.columns().remove(c0.keys().last()).insert(k, cols)
                } else {
                    &&& c1.keys() == c0.keys()
                    &&& c1.contents() == c0.contents()
                    &&& c1.columns() == c0.columns()
                }
            };
        if estimate_spec(c1.sketch().counters(), c1.sketch().width(), cols) > estimate_spec(
            c1.sketch().counters(),
            c1.sketch().width(),
            c0.columns()[c0.keys().last()],
        ) {
            assert(c1.contents().contains_key(k));
        }
    }
}

/// Every access of a stored key lands on its recorded columns: short of an
/// aging step, a hit raises the key's own estimate at those columns by one,
/// saturating.
pub proof fn lemma_tinylfu_hit_raises_estimate<K, V: Clone>(
    c0: TinyLfuCache<K, V>,
    c1: TinyLfuCache<K, V>,
    k: K,
    r: Option<V>,
)
    requires
        c0.wf(),
        c0.contents().contains_key(k),
        c0.sketch().samples() + 1 < c0.sketch().window(),
        tinylfu_get_step(c0, c1, k, r),
    ensures
        c1.columns()[k] == c0.columns()[k],
        estimate_spec(c1.sketch().counters(), c1.sketch().width(), c1.columns()[k]) == sat_inc(
            estimate_spec(c0.sketch().counters(), c0.sketch().width(), c0.columns()[k]),
        ),
{
    c0.lemma_wf();
    lemma_increment_raises_estimate(c0.sketch().counters(), c0.sketch().width(), c0.columns()[k]);
}

} // verus!
