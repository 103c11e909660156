//! Weight-bounded cache: capacity is the total weight of the entries, not
//! their count.

use vstd::prelude::*;
use core::hash::Hash;
use vstd::std_specs::hash::obeys_key_model;
use crate::cache::Cache;
use crate::error::CacheError;
use crate::recency::{RecencyList, seq_without, lemma_remove_value_at, lemma_remove_value_contains};

verus! {

/// Sum of the weights of the keys in `keys`.
pub open spec fn weight_sum<K>(keys: Seq<K>, weights: Map<K, usize>) -> nat
    decreases keys.len(),
{
    if keys.len() == 0 {
        0
    } else {
        weight_sum(keys.drop_last(), weights) + weights[keys.last()] as nat
    }
}

/// The sum only depends on the weights of the keys summed.
pub proof fn lemma_weight_sum_frame<K>(keys: Seq<K>, w1: Map<K, usize>, w2: Map<K, usize>)
    requires
        forall|i: int| 0 <= i < keys.len() ==> w1[#[trigger] keys[i]] == w2[keys[i]],
    ensures
        weight_sum(keys, w1) == weight_sum(keys, w2),
    decreases keys.len(),
{
    if keys.len() > 0 {
        lemma_weight_sum_frame(keys.drop_last(), w1, w2);
        assert(keys.last() == keys[keys.len() - 1]);
    }
}

/// Adding a key in front adds its weight.
pub proof fn lemma_weight_sum_front<K>(k: K, keys: Seq<K>, weights: Map<K, usize>)
    ensures
        weight_sum(seq![k] + keys, weights) == weights[k] + weight_sum(keys, weights),
    decreases keys.len(),
{
    if keys.len() == 0 {
        assert(seq![k] + keys =~= seq![k]);
        assert(seq![k].drop_last() =~= Seq::<K>::empty());
        assert(weight_sum(Seq::<K>::empty(), weights) == 0);
    } else {
        lemma_weight_sum_front(k, keys.drop_last(), weights);
        assert((seq![k] + keys).drop_last() =~= seq![k] + keys.drop_last());
        assert((seq![k] + keys).last() == keys.last());
    }
}

/// Taking out the key at position `p` takes out its weight.
pub proof fn lemma_weight_sum_remove<K>(keys: Seq<K>, p: int, weights: Map<K, usize>)
    requires
        0 <= p < keys.len(),
    ensures
        weight_sum(keys.remove(p), weights) + weights[keys[p]] == weight_sum(keys, weights),
    decreases keys.len(),
{
    if p == keys.len() - 1 {
        assert(keys.remove(p) =~= keys.drop_last());
    } else {
        lemma_weight_sum_remove(keys.drop_last(), p, weights);
        assert(keys.remove(p).drop_last() =~= keys.drop_last().remove(p));
    }
}

/// Prefix sums grow with the prefix.
pub proof fn lemma_weight_sum_take<K>(keys: Seq<K>, j: int, weights: Map<K, usize>)
    requires
        0 < j <= keys.len(),
    ensures
        weight_sum(keys.take(j), weights) == weight_sum(keys.take(j - 1), weights) + weights[keys[j - 1]],
{
    assert(keys.take(j).drop_last() =~= keys.take(j - 1));
}

struct Entry<V> {
    value: V,
    weight: usize,
}

/// A cache bounded by the **total weight** of its entries.
///
/// Each value is weighed by a user-supplied weigher when it is inserted.
/// Least-recently-used entries are evicted until the new entry fits within
/// `max_weight`. A value heavier than `max_weight` on its own is silently
/// rejected. `capacity()` reports `max_weight`.
pub struct SizedCache<K, V, W = fn(&V) -> usize> {
    max_weight: usize,
    weigher: W,
    list: RecencyList<K, Entry<V>>,
    total_weight: usize,
}

impl<K, V, W> SizedCache<K, V, W> {
    /// Keys from most- to least-recently used.
    pub closed spec fn keys(&self) -> Seq<K> {
        self.list.keys()
    }

    /// Stored values.
    pub closed spec fn contents(&self) -> Map<K, V> {
        self.list.contents().map_values(|e: Entry<V>| e.value)
    }

    /// Weight recorded for each key.
    pub closed spec fn weights(&self) -> Map<K, usize> {
        self.list.contents().map_values(|e: Entry<V>| e.weight)
    }

    /// Current total weight.
    pub closed spec fn total(&self) -> nat {
        self.total_weight as nat
    }

    /// Configured weight ceiling.
    pub closed spec fn ceiling(&self) -> nat {
        self.max_weight as nat
    }

    /// The weigher.
    pub closed spec fn weigher(&self) -> W {
        self.weigher
    }

}

impl<K, V, W: Fn(&V) -> usize> SizedCache<K, V, W> {
    /// Well-formed: the total is the sum of the recorded weights and stays
    /// within the ceiling.
    pub closed spec fn wf(&self) -> bool {
        &&& self.list.wf()
        &&& forall|v: &V| call_requires(self.weigher, (v,))
        &&& self.max_weight > 0
        &&& self.total_weight as nat == weight_sum(self.list.keys(), self.weights())
        &&& self.total_weight <= self.max_weight
    }

    /// Facts every well-formed cache satisfies.
    pub proof fn lemma_wf(&self)
        requires
            self.wf(),
        ensures
            self.keys().no_duplicates(),
            self.keys().len() == self.contents().len(),
            forall|k: K| #[trigger] self.keys().contains(k) <==> self.contents().contains_key(k),
            self.contents().dom() == self.weights().dom(),
            self.total() == weight_sum(self.keys(), self.weights()),
            self.total() <= self.ceiling(),
            self.ceiling() > 0,
    {
        self.list.lemma_view();
        assert(self.contents().dom() =~= self.list.contents().dom());
        assert(self.weights().dom() =~= self.list.contents().dom());
    }
}

/// `kept` is how many of the most recent `keys` stay when `incoming` weight
/// must fit under `max`: the longest prefix whose weight leaves room.
pub open spec fn kept_prefix<K>(keys: Seq<K>, weights: Map<K, usize>, incoming: nat, max: nat, kept: int) -> bool {
    &&& 0 <= kept <= keys.len()
    &&& weight_sum(keys.take(kept), weights) + incoming <= max
    &&& forall|j: int| kept < j <= keys.len() ==> #[trigger] weight_sum(keys.take(j), weights) + incoming > max
}

/// What inserting `v` with weight `w` does: too heavy a value changes nothing;
/// otherwise any old entry of `k` is taken out (its value returned), the
/// least-recently-used entries are evicted until `w` fits, and `k` goes to the
/// front.
pub open spec fn sized_insert_step<K, V, W>(
    old: SizedCache<K, V, W>,
    new: SizedCache<K, V, W>,
    k: K,
    v: V,
    w: usize,
    r: Option<V>,
) -> bool {
    &&& new.ceiling() == old.ceiling()
    &&& new.weigher() == old.weigher()
    &&& if w > old.ceiling() {
        &&& r is None
        &&& new.keys() == old.keys()
        &&& new.contents() == old.contents()
        &&& new.weights() == old.weights()
        &&& new.total() == old.total()
    } else {
        let rest = seq_without(old.keys(), k);
        &&& r == (if old.contents().contains_key(k) {
            Some(old.contents()[k])
        } else {
            None::<V>
        })
        &&& exists|kept: int|
            {
                &&& kept_prefix(rest, old.weights(), w as nat, old.ceiling(), kept)
                &&& new.keys() == seq![k] + rest.take(kept)
                &&& new.contents() == old.contents().restrict(rest.take(kept).to_set()).insert(k, v)
                &&& new.weights() == old.weights().restrict(rest.take(kept).to_set()).insert(k, w)
            }
    }
}

/// What `get` does: a hit moves the key to the front and returns a clone of
/// its value.
pub open spec fn sized_get_step<K, V: Clone, W>(old: SizedCache<K, V, W>, new: SizedCache<K, V, W>, k: K, r: Option<V>) -> bool {
    &&& new.ceiling() == old.ceiling()
    &&& new.weigher() == old.weigher()
    &&& new.contents() == old.contents()
    &&& new.weights() == old.weights()
    &&& new.total() == old.total()
    &&& if old.contents().contains_key(k) {
        &&& r is Some
        &&& cloned(old.contents()[k], r->0)
        &&& new.keys() == crate::recency::seq_to_front(old.keys(), k)
    } else {
        &&& r is None
        &&& new.keys() == old.keys()
    }
}

/// What `remove` does: the entry and its weight leave the cache.
pub open spec fn sized_remove_step<K, V, W>(old: SizedCache<K, V, W>, new: SizedCache<K, V, W>, k: K, r: Option<V>) -> bool {
    &&& new.ceiling() == old.ceiling()
    &&& new.weigher() == old.weigher()
    &&& r == (if old.contents().contains_key(k) {
        Some(old.contents()[k])
    } else {
        None::<V>
    })
    &&& new.keys() == seq_without(old.keys(), k)
    &&& new.contents() == old.contents().remove(k)
    &&& new.weights() == old.weights().remove(k)
    &&& new.total() == (if old.contents().contains_key(k) {
        old.total() - old.weights()[k]
    } else {
        old.total() as int
    })
}

impl<K: Copy + Eq + Hash, V: Clone, W: Fn(&V) -> usize> SizedCache<K, V, W> {
    /// Creates a cache with the given weight ceiling and weigher; a ceiling of
    /// zero is refused.
    pub fn new(max_weight: usize, weigher: W) -> (r: Result<Self, CacheError>)
        requires
            obeys_key_model::<K>(),
            forall|v: &V| call_requires(weigher, (v,)),
        ensures
            max_weight == 0 ==> r is Err && r->Err_0 == CacheError::InvalidCapacity,
            max_weight > 0 ==> (r matches Ok(c) && c.wf() && c.ceiling() == max_weight && c.weigher() == weigher
                && c.keys() == Seq::<K>::empty() && c.contents() == Map::<K, V>::empty() && c.total() == 0),
    {
        if max_weight == 0 {
            return Err(CacheError::InvalidCapacity);
        }
        let list: RecencyList<K, Entry<V>> = RecencyList::new(0);
        let r = SizedCache { max_weight, weigher, list, total_weight: 0 };
        proof {
            assert(r.contents() =~= Map::<K, V>::empty());
        }
        Ok(r)
    }

    /// For this cache, being ready for an operation of [`Cache`], satisfying
    /// its invariant and being well formed are one and the same.
    pub proof fn lemma_ready_when_wf(&self)
        ensures
            self.ready() == self.wf(),
            self.inv() == self.wf(),
    {
    }

    /// What the quantities of [`Cache`] are for this cache: the entry count is
    /// the number of keys, the load is the total weight and the bound is the
    /// weight ceiling.
    pub proof fn lemma_cache_quantities(&self)
        ensures
            self.entries() == self.keys().len(),
            self.load() == self.total(),
            self.bound() == self.ceiling(),
    {
    }

    /// The configured weight ceiling.
    pub fn max_weight(&self) -> (r: usize)
        ensures
            r == self.ceiling(),
    {
        self.max_weight
    }

    /// Current total weight of all entries.
    pub fn total_weight(&self) -> (r: usize)
        ensures
            r == self.total(),
    {
        self.total_weight
    }

    /// Evicts least-recently-used entries until `incoming` more weight fits.
    fn evict_until_fits(&mut self, incoming: usize)
        requires
            old(self).list.wf(),
            old(self).total_weight as nat == weight_sum(old(self).keys(), old(self).weights()),
            incoming <= old(self).max_weight,
        ensures
            final(self).list.wf(),
            final(self).max_weight == old(self).max_weight,
            final(self).weigher == old(self).weigher,
            final(self).total_weight as nat == weight_sum(final(self).keys(), final(self).weights()),
            final(self).total_weight + incoming <= final(self).max_weight,
            exists|kept: int|
                {
                    &&& kept_prefix(old(self).keys(), old(self).weights(), incoming as nat, old(self).ceiling(), kept)
                    &&& final(self).keys() == old(self).keys().take(kept)
                    &&& final(self).list.contents() == old(self).list.contents().restrict(
                        old(self).keys().take(kept).to_set(),
                    )
                },
    {
        let ghost orig = self.keys();
        let ghost oc = self.list.contents();
        let ghost ow = self.weights();
        proof {
            self.list.lemma_view();
            assert(orig.take(orig.len() as int) =~= orig);
            assert(oc.restrict(orig.to_set()) =~= oc);
        }
        while self.total_weight > self.max_weight - incoming
            invariant
                self.list.wf(),
                self.max_weight == old(self).max_weight,
                self.weigher == old(self).weigher,
                incoming <= self.max_weight,
                orig == old(self).keys(),
                oc == old(self).list.contents(),
                ow == old(self).weights(),
                orig.no_duplicates(),
                self.keys().len() <= orig.len(),
                self.keys() == orig.take(self.keys().len() as int),
                self.list.contents() == oc.restrict(orig.take(self.keys().len() as int).to_set()),
                self.total_weight as nat == weight_sum(self.keys(), ow),
                forall|j: int|
                    self.keys().len() < j <= orig.len() ==> #[trigger] weight_sum(orig.take(j), ow)
                        + incoming > self.max_weight,
            decreases self.keys().len(),
        {
            let ghost cur = self.keys().len() as int;
            proof {
                if cur == 0 {
                    assert(self.keys() =~= Seq::<K>::empty());
                }
            }
            let popped = self.list.pop_lru();
            match popped {
                Some((k, e)) => {
                    proof {
                        lemma_weight_sum_take(orig, cur, ow);
                        assert(orig.take(cur)[cur - 1] == k);
                        assert(orig.take(cur).drop_last() =~= orig.take(cur - 1));
                        assert(oc.contains_key(k));
                        assert(ow[k] == e.weight);
                    }
                    self.total_weight = self.total_weight - e.weight;
                    proof {
                        let t0 = orig.take(cur);
                        let t1 = orig.take(cur - 1);
                        assert forall|x: K| t1.to_set().contains(x) <==> (t0.to_set().contains(x) && x != k) by {
                            if t1.to_set().contains(x) {
                                let i = choose|i: int| 0 <= i < t1.len() && t1[i] == x;
                                assert(t0[i] == x);
                                assert(orig[i] != orig[cur - 1]);
                            }
                            if t0.to_set().contains(x) && x != k {
                                let i = choose|i: int| 0 <= i < t0.len() && t0[i] == x;
                                assert(i != cur - 1);
                                assert(t1[i] == x);
                            }
                        }
                        assert(self.list.contents() =~= oc.restrict(t1.to_set()));
                    }
                },
                None => {
                    proof {
                        assert(false);
                    }
                },
            }
        }
        proof {
            let kept = self.keys().len() as int;
            assert(kept_prefix(orig, ow, incoming as nat, self.max_weight as nat, kept));
            assert forall|i: int| 0 <= i < self.keys().len() implies ow[#[trigger] self.keys()[i]]
                == self.weights()[self.keys()[i]] by {
                self.list.lemma_view();
                assert(self.keys().contains(self.keys()[i]));
                assert(orig.take(kept).to_set().contains(self.keys()[i]));
            }
            lemma_weight_sum_frame(self.keys(), ow, self.weights());
        }
    }

    /// Inserts `value` with weight `weight` under `key`.
    ///
    /// A value heavier than the ceiling is rejected and the cache left as it
    /// was. Otherwise any previous entry of `key` is replaced (its value is
    /// returned), least-recently-used entries are evicted until the new weight
    /// fits, and `key` becomes the most recently used.
    pub fn insert_weighed(&mut self, key: K, value: V, weight: usize) -> (r: Option<V>)
        requires
            old(self).wf(),
        ensures
            final(self).wf(),
            sized_insert_step(*old(self), *final(self), key, value, weight, r),
    {
        if weight > self.max_weight {
            return None;
        }
        proof {
            self.list.lemma_view();
        }
        let ghost keys0 = self.keys();
        let ghost w0 = self.weights();
        let previous = self.list.remove(&key);
        let old_value = match previous {
            Some(e) => {
                proof {
                    assert(keys0.contains(key));
                    let p = choose|p: int| 0 <= p < keys0.len() && keys0[p] == key;
                    lemma_remove_value_at(keys0, p);
                    lemma_weight_sum_remove(keys0, p, w0);
                    assert forall|i: int| 0 <= i < keys0.remove(p).len() implies w0[#[trigger] keys0.remove(p)[i]]
                        == self.weights()[keys0.remove(p)[i]] by {
                        lemma_remove_value_contains(keys0, key);
                        self.list.lemma_view();
                        assert(self.keys().contains(keys0.remove(p)[i]));
                    }
                    lemma_weight_sum_frame(keys0.remove(p), w0, self.weights());
                    assert(w0[key] == e.weight);
                }
                self.total_weight = self.total_weight - e.weight;
                Some(e.value)
            },
            None => {
                proof {
                    lemma_remove_value_contains(keys0, key);
                    assert(self.weights() =~= w0);
                }
                None
            },
        };
        let ghost mid = *self;
        proof {
            lemma_remove_value_contains(keys0, key);
            assert(mid.weights() =~= w0.remove(key));
        }
        self.evict_until_fits(weight);
        let ghost kept_keys = self.keys();
        let ghost after_evict = *self;
        proof {
            self.list.lemma_view();
            assert(!self.list.contents().contains_key(key));
        }
        self.list.push_front(key, Entry { value, weight });
        self.total_weight = self.total_weight + weight;
        proof {
            lemma_weight_sum_front(key, kept_keys, self.weights());
            assert forall|i: int| 0 <= i < kept_keys.len() implies #[trigger] self.weights()[kept_keys[i]]
                == after_evict.weights()[kept_keys[i]] by {
                assert(kept_keys.contains(kept_keys[i]));
                after_evict.list.lemma_view();
            }
            lemma_weight_sum_frame(kept_keys, self.weights(), after_evict.weights());
            assert(self.total_weight as nat == weight_sum(self.keys(), self.weights()));
            let kept = choose|kept: int|
                {
                    &&& kept_prefix(mid.keys(), mid.weights(), weight as nat, mid.ceiling(), kept)
                    &&& kept_keys == mid.keys().take(kept)
                    &&& #[trigger] mid.list.contents().restrict(mid.keys().take(kept).to_set()) == mid.list.contents().restrict(kept_keys.to_set())
                };
            assert(mid.keys() == seq_without(keys0, key));
            lemma_weight_sum_frame(mid.keys(), mid.weights(), w0);
            assert forall|j: int| 0 <= j <= mid.keys().len() implies weight_sum(#[trigger] mid.keys().take(j), mid.weights()) == weight_sum(mid.keys().take(j), w0) by {
                assert forall|i: int| 0 <= i < mid.keys().take(j).len() implies #[trigger] mid.weights()[mid.keys().take(j)[i]] == w0[mid.keys().take(j)[i]] by {
                    assert(mid.keys().contains(mid.keys().take(j)[i]));
                }
                lemma_weight_sum_frame(mid.keys().take(j), mid.weights(), w0);
            }
            assert(kept_prefix(seq_without(keys0, key), old(self).weights(), weight as nat, old(self).ceiling(), kept));
            assert(self.contents() =~= old(self).contents().restrict(kept_keys.to_set()).insert(key, value));
            assert(self.weights() =~= old(self).weights().restrict(kept_keys.to_set()).insert(key, weight));
        }
        old_value
    }

    /// Removes `key`, returning its value; its weight leaves the total.
    pub fn remove_entry(&mut self, key: &K) -> (r: Option<V>)
        requires
            old(self).wf(),
        ensures
            final(self).wf(),
            sized_remove_step(*old(self), *final(self), *key, r),
    {
        proof {
            self.list.lemma_view();
        }
        let ghost keys0 = self.keys();
        let ghost w0 = self.weights();
        let previous = self.list.remove(key);
        let r = match previous {
            Some(e) => {
                proof {
                    assert(keys0.contains(*key));
                    let p = choose|p: int| 0 <= p < keys0.len() && keys0[p] == *key;
                    lemma_remove_value_at(keys0, p);
                    lemma_weight_sum_remove(keys0, p, w0);
                    assert forall|i: int| 0 <= i < keys0.remove(p).len() implies w0[#[trigger] keys0.remove(p)[i]]
                        == self.weights()[keys0.remove(p)[i]] by {
                        lemma_remove_value_contains(keys0, *key);
                        self.list.lemma_view();
                        assert(self.keys().contains(keys0.remove(p)[i]));
                    }
                    lemma_weight_sum_frame(keys0.remove(p), w0, self.weights());
                    assert(w0[*key] == e.weight);
                }
                self.total_weight = self.total_weight - e.weight;
                Some(e.value)
            },
            None => {
                proof {
                    lemma_remove_value_contains(keys0, *key);
                    assert(self.weights() =~= w0);
                }
                None
            },
        };
        proof {
            assert(self.contents() =~= old(self).contents().remove(*key));
            assert(self.weights() =~= old(self).weights().remove(*key));
        }
        r
    }
}

impl<K: Copy + Eq + Hash, V: Clone, W: Fn(&V) -> usize> Cache<K, V> for SizedCache<K, V, W> {
    open spec fn inv(&self) -> bool {
        self.wf()
    }

    open spec fn ready(&self) -> bool {
        self.wf()
    }

    open spec fn entries(&self) -> nat {
        self.keys().len()
    }

    open spec fn load(&self) -> nat {
        self.total()
    }

    open spec fn bound(&self) -> nat {
        self.ceiling()
    }

    proof fn lemma_inv(&self) {
    }

    proof fn lemma_ready(&self) {
    }

    fn get(&mut self, key: &K) -> (r: Option<V>)
        ensures
            sized_get_step(*old(self), *final(self), *key, r),
    {
        proof {
            self.list.lemma_view();
        }
        match self.list.slot_of(key) {
            Some(idx) => {
                self.list.promote(idx, Ghost(*key));
                proof {
                    crate::lru::lemma_to_front_len(old(self).keys(), *key);
                    assert(self.contents() =~= old(self).contents());
                    assert(self.weights() =~= old(self).weights());
                    let ks = self.keys();
                    let ko = old(self).keys();
                    lemma_remove_value_contains(ko, *key);
                    let p = choose|p: int| 0 <= p < ko.len() && ko[p] == *key;
                    lemma_remove_value_at(ko, p);
                    lemma_weight_sum_remove(ko, p, self.weights());
                    lemma_weight_sum_front(*key, ko.remove(p), self.weights());
                }
                Some(self.list.value(idx, Ghost(*key)).value.clone())
            },
            None => None,
        }
    }

    fn insert(&mut self, key: K, value: V) -> (r: Option<V>)
        ensures
            exists|w: usize|
                call_ensures(old(self).weigher(), (&value,), w) && sized_insert_step(
                    *old(self),
                    *final(self),
                    key,
                    value,
                    w,
                    r,
                ),
    {
        let weight = (self.weigher)(&value);
        self.insert_weighed(key, value, weight)
    }

    fn remove(&mut self, key: &K) -> (r: Option<V>)
        ensures
            sized_remove_step(*old(self), *final(self), *key, r),
    {
        self.remove_entry(key)
    }

    fn contains_key(&mut self, key: &K) -> (r: bool)
        ensures
            *final(self) == *old(self),
            r == old(self).contents().contains_key(*key),
    {
        proof {
            assert(self.contents().dom() =~= self.list.contents().dom());
        }
        self.list.contains(key)
    }

    fn len(&mut self) -> (r: usize)
        ensures
            *final(self) == *old(self),
    {
        self.list.len()
    }

    fn is_empty(&mut self) -> (r: bool)
        ensures
            *final(self) == *old(self),
    {
        self.len() == 0
    }

    fn clear(&mut self)
        ensures
            final(self).contents() == Map::<K, V>::empty(),
            final(self).total() == 0,
    {
        self.list.clear();
        self.total_weight = 0;
        proof {
            assert(self.contents() =~= Map::<K, V>::empty());
            assert(self.keys() =~= Seq::<K>::empty());
        }
    }

    fn capacity(&self) -> (r: usize) {
        self.max_weight
    }
}

/// Read after write: a value that fits under the ceiling is stored by `insert`,
/// and a following `get` returns a clone of it.
pub proof fn lemma_sized_insert_then_get<K, V: Clone, W>(
    c0: SizedCache<K, V, W>,
    c1: SizedCache<K, V, W>,
    c2: SizedCache<K, V, W>,
    k: K,
    v: V,
    w: usize,
    r1: Option<V>,
    r2: Option<V>,
)
    requires
        w <= c0.ceiling(),
        sized_insert_step(c0, c1, k, v, w, r1),
        sized_get_step(c1, c2, k, r2),
    ensures
        r2 is Some,
        cloned(v, r2->0),
{
    let rest = seq_without(c0.keys(), k);
    let kept = choose|kept: int|
        {
            &&& kept_prefix(rest, c0.weights(), w as nat, c0.ceiling(), kept)
            &&& c1.keys() == seq![k] + rest.take(kept)
            &&& c1.contents() == c0.contents().restrict(rest.take(kept).to_set()).insert(k, v)
            &&& c1.weights() == c0.weights().restrict(rest.take(kept).to_set()).insert(k, w)
        };
    assert(c1.contents().contains_key(k));
}

/// A value heavier than the ceiling is never stored: the insert changes
/// nothing.
pub proof fn lemma_sized_oversized_rejected<K, V, W>(
    c0: SizedCache<K, V, W>,
    c1: SizedCache<K, V, W>,
    k: K,
    v: V,
    w: usize,
    r: Option<V>,
)
    requires
        w > c0.ceiling(),
        sized_insert_step(c0, c1, k, v, w, r),
    ensures
        r is None,
        c1.contents() == c0.contents(),
        c1.total() == c0.total(),
{
}

/// Remove then query: after `remove(k)` the cache no longer holds `k` and its
/// weight has left the total.
pub proof fn lemma_sized_remove_then_get<K, V: Clone, W: Fn(&V) -> usize>(
    c0: SizedCache<K, V, W>,
    c1: SizedCache<K, V, W>,
    c2: SizedCache<K, V, W>,
    k: K,
    r1: Option<V>,
    r2: Option<V>,
)
    requires
        c0.wf(),
        c0.contents().contains_key(k),
        sized_remove_step(c0, c1, k, r1),
        sized_get_step(c1, c2, k, r2),
    ensures
        r2 is None,
        c1.total() + c0.weights()[k] == c0.total(),
{
    c0.lemma_wf();
}

} // verus!
