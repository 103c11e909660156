//! Time-To-Live (TTL) cache with lazy expiry.
//!
//! Times are nanoseconds elapsed since the cache was created. The operations
//! that read the clock take the reading as `now` in their `_at` forms, which
//! carry the exact contracts; the plain forms read the clock and delegate.

use vstd::prelude::*;
use core::hash::Hash;
use std::collections::HashMap;
use std::time::Duration;
use std::time::Instant;
use vstd::std_specs::hash::obeys_key_model;
use vstd::std_specs::iter::IteratorSpec;
use crate::cache::Cache;
use crate::clock::{
    instant_now,
    elapsed_since,
    duration_between,
    instant_checked_add,
    duration_from_secs,
    duration_nanos,
    duration_as_nanos,
    MAX_DURATION_NANOS,
};
use crate::error::CacheError;

verus! {

broadcast use vstd::std_specs::hash::group_hash_axioms;

/// Fallback lifetime, in seconds (about 100 years), used when the deadline
/// `now + ttl` cannot be represented as an `Instant`.
pub const FAR_FUTURE_SECS: u64 = 3_153_600_000;

/// The fallback lifetime in nanoseconds.
pub const FAR_FUTURE_NANOS: u128 = 3_153_600_000_000_000_000;

/// Deadline of an entry written at `now` with a lifetime of `ttl` nanoseconds:
/// `now + ttl` where the platform's `Instant` can represent that moment
/// (`ttl_fits`); otherwise about 100 years from `now` where that can be
/// represented (`far_fits`); otherwise `now` itself.
pub open spec fn deadline_spec(now: u128, ttl: u128, ttl_fits: bool, far_fits: bool) -> int {
    if ttl_fits {
        now + ttl
    } else if far_fits {
        now + FAR_FUTURE_NANOS
    } else {
        now as int
    }
}

/// Computes the deadline of an entry written at `now` with lifetime `ttl`,
/// given whether the platform's `Instant` can represent `now + ttl`
/// (`ttl_fits`) and `now + 100 years` (`far_fits`).
pub fn deadline_after(now: u128, ttl: u128, ttl_fits: bool, far_fits: bool) -> (r: u128)
    requires
        now <= MAX_DURATION_NANOS,
        ttl <= MAX_DURATION_NANOS,
    ensures
        r == deadline_spec(now, ttl, ttl_fits, far_fits),
{
    if ttl_fits {
        now + ttl
    } else if far_fits {
        now + FAR_FUTURE_NANOS
    } else {
        now
    }
}

struct Entry<V> {
    value: V,
    expires_at: u128,
}

/// A bounded cache with per-entry time-to-live.
///
/// Each entry is stamped with a deadline when written. `get`, `contains_key`
/// and `len` drop expired entries lazily. On overflow the entry with the
/// soonest deadline is evicted, so already-expired entries go first. Every
/// write re-arms the deadline of the written entry.
pub struct TtlCache<K, V> {
    capacity: usize,
    default_ttl: Duration,
    origin: Instant,
    map: HashMap<K, Entry<V>>,
}

/// `k` is stored and its deadline lies after `now`.
pub open spec fn is_live<K>(deadlines: Map<K, u128>, k: K, now: u128) -> bool {
    deadlines.contains_key(k) && deadlines[k] > now
}

/// The keys still live at `now`.
pub open spec fn live_keys<K>(deadlines: Map<K, u128>, now: u128) -> Set<K> {
    Set::new(|k: K| is_live(deadlines, k, now))
}

/// `victim` has the soonest deadline among the entries.
pub open spec fn is_soonest<K>(deadlines: Map<K, u128>, victim: K) -> bool {
    &&& deadlines.contains_key(victim)
    &&& forall|k: K| #[trigger] deadlines.contains_key(k) ==> deadlines[victim] <= deadlines[k]
}

impl<K, V> TtlCache<K, V> {
    /// Well-formed: within capacity.
    pub closed spec fn wf(&self) -> bool {
        &&& obeys_key_model::<K>()
        &&& self.capacity > 0
        &&& self.map@.len() <= self.capacity
    }

    /// Stored values, expired ones included until they are cleaned up.
    pub closed spec fn contents(&self) -> Map<K, V> {
        self.map@.map_values(|e: Entry<V>| e.value)
    }

    /// Deadline of each stored entry.
    pub closed spec fn deadlines(&self) -> Map<K, u128> {
        self.map@.map_values(|e: Entry<V>| e.expires_at)
    }

    /// Configured capacity.
    pub closed spec fn cap(&self) -> nat {
        self.capacity as nat
    }

    /// Lifetime given to entries written by the plain `insert`.
    pub closed spec fn default_ttl(&self) -> Duration {
        self.default_ttl
    }

    /// Facts every well-formed cache satisfies.
    pub proof fn lemma_wf(&self)
        requires
            self.wf(),
        ensures
            self.contents().dom() == self.deadlines().dom(),
            self.contents().dom().finite(),
            self.contents().len() <= self.cap(),
            self.cap() > 0,
    {
        assert(self.contents().dom() =~= self.map@.dom());
        assert(self.deadlines().dom() =~= self.map@.dom());
    }
}

/// `deadline` is what an entry written at some clock reading (nanoseconds
/// since the cache was created) with lifetime `ttl` gets: the reading plus the
/// nanoseconds of `ttl`, or the far-future fallback where the platform's
/// `Instant` cannot represent that moment.
pub open spec fn armed_for(deadline: u128, ttl: Duration) -> bool {
    exists|start: Duration, ttl_fits: bool, far_fits: bool|
        {
            &&& duration_as_nanos(start) <= MAX_DURATION_NANOS
            &&& deadline == #[trigger] deadline_spec(
                duration_as_nanos(start),
                duration_as_nanos(ttl),
                ttl_fits,
                far_fits,
            )
        }
}

/// What `get` at time `now` does: a live hit returns a clone; an expired hit is
/// dropped and reads as absent.
pub open spec fn ttl_get_step<K, V: Clone>(old: TtlCache<K, V>, new: TtlCache<K, V>, k: K, now: u128, r: Option<V>) -> bool {
    &&& new.cap() == old.cap()
    &&& new.default_ttl() == old.default_ttl()
    &&& if is_live(old.deadlines(), k, now) {
        &&& r is Some
        &&& cloned(old.contents()[k], r->0)
        &&& new.contents() == old.contents()
        &&& new.deadlines() == old.deadlines()
    } else {
        &&& r is None
        &&& new.contents() == old.contents().remove(k)
        &&& new.deadlines() == old.deadlines().remove(k)
    }
}

/// What `contains_key` at time `now` does: it reports liveness, dropping an
/// expired entry.
pub open spec fn ttl_contains_step<K, V>(old: TtlCache<K, V>, new: TtlCache<K, V>, k: K, now: u128, r: bool) -> bool {
    &&& new.cap() == old.cap()
    &&& new.default_ttl() == old.default_ttl()
    &&& r == is_live(old.deadlines(), k, now)
    &&& if r {
        &&& new.contents() == old.contents()
        &&& new.deadlines() == old.deadlines()
    } else {
        &&& new.contents() == old.contents().remove(k)
        &&& new.deadlines() == old.deadlines().remove(k)
    }
}

/// What an insert with deadline `deadline` at time `now` does: a live entry is
/// updated and its old value returned; otherwise any stale entry is dropped,
/// the soonest-expiring entry is evicted when the cache is full, and the new
/// entry is added.
pub open spec fn ttl_insert_step<K, V>(
    old: TtlCache<K, V>,
    new: TtlCache<K, V>,
    k: K,
    v: V,
    deadline: u128,
    now: u128,
    r: Option<V>,
) -> bool {
    &&& new.cap() == old.cap()
    &&& new.default_ttl() == old.default_ttl()
    &&& if is_live(old.deadlines(), k, now) {
        &&& r == Some(old.contents()[k])
        &&& new.contents() == old.contents().insert(k, v)
        &&& new.deadlines() == old.deadlines().insert(k, deadline)
    } else {
        let c = old.contents().remove(k);
        let d = old.deadlines().remove(k);
        &&& r is None
        &&& if c.len() >= old.cap() {
            exists|victim: K|
                {
                    &&& is_soonest(d, victim)
                    &&& new.contents() == c.remove(victim).insert(k, v)
                    &&& new.deadlines() == d.remove(victim).insert(k, deadline)
                }
        } else {
            &&& new.contents() == c.insert(k, v)
            &&& new.deadlines() == d.insert(k, deadline)
        }
    }
}

/// What purging at time `now` does: exactly the live entries remain.
pub open spec fn ttl_purge_step<K, V>(old: TtlCache<K, V>, new: TtlCache<K, V>, now: u128) -> bool {
    &&& new.cap() == old.cap()
    &&& new.default_ttl() == old.default_ttl()
    &&& new.contents() == old.contents().restrict(live_keys(old.deadlines(), now))
    &&& new.deadlines() == old.deadlines().restrict(live_keys(old.deadlines(), now))
}

/// What `remove` does.
pub open spec fn ttl_remove_step<K, V>(old: TtlCache<K, V>, new: TtlCache<K, V>, k: K, r: Option<V>) -> bool {
    &&& new.cap() == old.cap()
    &&& new.default_ttl() == old.default_ttl()
    &&& r == (if old.contents().contains_key(k) {
        Some(old.contents()[k])
    } else {
        None::<V>
    })
    &&& new.contents() == old.contents().remove(k)
    &&& new.deadlines() == old.deadlines().remove(k)
}

impl<K: Copy + Eq + Hash, V: Clone> TtlCache<K, V> {
    fn build(capacity: usize, ttl: Duration) -> (r: Self)
        requires
            capacity > 0,
            obeys_key_model::<K>(),
        ensures
            r.wf(),
            r.cap() == capacity,
            r.default_ttl() == ttl,
            r.contents() == Map::<K, V>::empty(),
    {
        let r = TtlCache {
            capacity,
            default_ttl: ttl,
            origin: instant_now(),
            map: HashMap::with_capacity(capacity),
        };
        assert(r.contents() =~= Map::<K, V>::empty());
        r
    }

    /// Creates a cache with the given capacity and default time-to-live; a
    /// capacity of zero is refused.
    pub fn new(capacity: usize, ttl: Duration) -> (r: Result<Self, CacheError>)
        requires
            obeys_key_model::<K>(),
        ensures
            capacity == 0 ==> r == Err::<Self, CacheError>(CacheError::InvalidCapacity),
            capacity > 0 ==> (r matches Ok(c) && c.wf() && c.cap() == capacity && c.default_ttl() == ttl
                && c.contents() == Map::<K, V>::empty()),
    {
        if capacity == 0 {
            return Err(CacheError::InvalidCapacity);
        }
        Ok(Self::build(capacity, ttl))
    }

    /// Creates a cache with the given non-zero capacity and default time-to-live.
    pub fn with_capacity(capacity: usize, ttl: Duration) -> (r: Self)
        requires
            capacity > 0,
            obeys_key_model::<K>(),
        ensures
            r.wf(),
            r.cap() == capacity,
            r.default_ttl() == ttl,
            r.contents() == Map::<K, V>::empty(),
    {
        Self::build(capacity, ttl)
    }

    /// Nanoseconds since the cache was created: the nanosecond count of the
    /// elapsed `Duration`.
    fn now(&self) -> (r: u128)
        ensures
            exists|elapsed: Duration| r == #[trigger] duration_as_nanos(elapsed),
            r <= MAX_DURATION_NANOS,
    {
        let elapsed = elapsed_since(&self.origin);
        duration_nanos(&elapsed)
    }

    /// Deadline of an entry written now with lifetime `ttl`: the current
    /// reading plus the nanoseconds of `ttl`, with the far-future fallback
    /// where the platform's `Instant` cannot represent that moment.
    fn compute_deadline(&self, ttl: &Duration) -> (r: u128)
        ensures
            armed_for(r, *ttl),
    {
        let at = instant_now();
        let elapsed = duration_between(&at, &self.origin);
        let now = duration_nanos(&elapsed);
        let t = duration_nanos(ttl);
        let ttl_fits = match instant_checked_add(&at, ttl) {
            Some(_) => true,
            None => false,
        };
        let far_fits = if ttl_fits {
            true
        } else {
            let far = duration_from_secs(FAR_FUTURE_SECS);
            match instant_checked_add(&at, &far) {
                Some(_) => true,
                None => false,
            }
        };
        let r = deadline_after(now, t, ttl_fits, far_fits);
        assert(r == deadline_spec(duration_as_nanos(elapsed), duration_as_nanos(*ttl), ttl_fits, far_fits));
        r
    }

    /// `get` at time `now`.
    pub fn get_at(&mut self, key: &K, now: u128) -> (r: Option<V>)
        requires
            old(self).wf(),
        ensures
            final(self).wf(),
            ttl_get_step(*old(self), *final(self), *key, now, r),
    {
        let expires_at = match self.map.get(key) {
            Some(e) => e.expires_at,
            None => {
                proof {
                    assert(self.contents().remove(*key) =~= self.contents());
                    assert(self.deadlines().remove(*key) =~= self.deadlines());
                }
                return None;
            },
        };
        if expires_at <= now {
            let _ = self.map.remove(key);
            proof {
                assert(self.contents() =~= old(self).contents().remove(*key));
                assert(self.deadlines() =~= old(self).deadlines().remove(*key));
            }
            return None;
        }
        match self.map.get(key) {
            Some(e) => Some(e.value.clone()),
            None => None,
        }
    }

    /// `contains_key` at time `now`.
    pub fn contains_key_at(&mut self, key: &K, now: u128) -> (r: bool)
        requires
            old(self).wf(),
        ensures
            final(self).wf(),
            ttl_contains_step(*old(self), *final(self), *key, now, r),
    {
        let expires_at = match self.map.get(key) {
            Some(e) => e.expires_at,
            None => {
                proof {
                    assert(self.contents().remove(*key) =~= self.contents());
                    assert(self.deadlines().remove(*key) =~= self.deadlines());
                }
                return false;
            },
        };
        if expires_at > now {
            return true;
        }
        let _ = self.map.remove(key);
        proof {
            assert(self.contents() =~= old(self).contents().remove(*key));
            assert(self.deadlines() =~= old(self).deadlines().remove(*key));
        }
        false
    }

    /// The key with the soonest deadline, the first found on a tie.
    fn find_victim(&self) -> (r: Option<K>)
        requires
            self.wf(),
        ensures
            r is None ==> self.map@.len() == 0,
            r matches Some(v) ==> is_soonest(self.deadlines(), v),
    {
        let mut best: Option<(K, u128)> = None;
        for item in it: self.map.iter()
            invariant
                obeys_key_model::<K>(),
                it.seq() == vstd::std_specs::hash::spec_hash_map_iter(&self.map).remaining(),
                best is None ==> it.index() == 0,
                best matches Some((bk, bd)) ==> {
                    &&& self.map@.contains_key(bk)
                    &&& self.map@[bk].expires_at == bd
                    &&& forall|j: int| 0 <= j < it.index() ==> bd <= (#[trigger] it.seq()[j]).1.expires_at
                },
        {
            let (k, e) = item;
            let better = match best {
                None => true,
                Some((_, bd)) => e.expires_at < bd,
            };
            if better {
                best = Some((*k, e.expires_at));
            }
        }
        match best {
            Some((k, _)) => {
                proof {
                    assert forall|key: K| #[trigger] self.deadlines().contains_key(key) implies self.deadlines()[k]
                        <= self.deadlines()[key] by {
                        let v = vstd::std_specs::hash::spec_hash_map_iter(&self.map).remaining();
                        assert(v.contains((&key, &self.map@[key])));
                    }
                }
                Some(k)
            },
            None => {
                proof {
                    if self.map@.len() > 0 {
                        if self.map@.dom() =~= Set::<K>::empty() {
                            assert(self.map@.dom().len() == 0);
                        }
                    }
                }
                None
            },
        }
    }

    /// Insert with deadline `deadline`, judging liveness of an existing entry at
    /// time `now`.
    pub fn insert_at(&mut self, key: K, value: V, deadline: u128, now: u128) -> (r: Option<V>)
        requires
            old(self).wf(),
        ensures
            final(self).wf(),
            ttl_insert_step(*old(self), *final(self), key, value, deadline, now, r),
    {
        match self.map.remove(&key) {
            Some(existing) => {
                if existing.expires_at > now {
                    let _ = self.map.insert(key, Entry { value, expires_at: deadline });
                    proof {
                        assert(self.contents() =~= old(self).contents().insert(key, value));
                        assert(self.deadlines() =~= old(self).deadlines().insert(key, deadline));
                    }
                    return Some(existing.value);
                }
            },
            None => {},
        }
        let ghost base = *self;
        proof {
            assert(base.contents() =~= old(self).contents().remove(key));
            assert(base.deadlines() =~= old(self).deadlines().remove(key));
            base.lemma_wf();
            assert(base.contents().len() == base.map@.len()) by {
                assert(base.contents().dom() =~= base.map@.dom());
            }
        }
        let ghost victim: Option<K> = None;
        if self.map.len() >= self.capacity {
            match self.find_victim() {
                Some(v) => {
                    let _ = self.map.remove(&v);
                    proof {
                        victim = Some(v);
                    }
                },
                None => {},
            }
        }
        let _ = self.map.insert(key, Entry { value, expires_at: deadline });
        proof {
            match victim {
                Some(v) => {
                    assert(self.contents() =~= base.contents().remove(v).insert(key, value));
                    assert(self.deadlines() =~= base.deadlines().remove(v).insert(key, deadline));
                },
                None => {
                    assert(self.contents() =~= base.contents().insert(key, value));
                    assert(self.deadlines() =~= base.deadlines().insert(key, deadline));
                },
            }
        }
        None
    }

    /// Drops every entry whose deadline is at or before `now`.
    fn purge_expired(&mut self, now: u128)
        requires
            old(self).wf(),
        ensures
            final(self).wf(),
            ttl_purge_step(*old(self), *final(self), now),
    {
        let mut expired: Vec<K> = Vec::new();
        for item in it: self.map.iter()
            invariant
                obeys_key_model::<K>(),
                it.seq() == vstd::std_specs::hash::spec_hash_map_iter(&self.map).remaining(),
                forall|j: int|
                    0 <= j < expired@.len() ==> {
                        &&& self.map@.contains_key(#[trigger] expired@[j])
                        &&& self.map@[expired@[j]].expires_at <= now
                    },
                forall|i: int|
                    0 <= i < it.index() && (#[trigger] it.seq()[i]).1.expires_at <= now ==> expired@.contains(
                        *it.seq()[i].0,
                    ),
        {
            let (k, e) = item;
            let ghost before_push = expired@;
            if e.expires_at <= now {
                expired.push(*k);
                proof {
                    assert(expired@[before_push.len() as int] == *k);
                    assert forall|x: K| before_push.contains(x) implies expired@.contains(x) by {
                        let j = choose|j: int| 0 <= j < before_push.len() && before_push[j] == x;
                        assert(expired@[j] == x);
                    }
                }
            }
        }
        let ghost m0 = self.map@;
        proof {
            let v = vstd::std_specs::hash::spec_hash_map_iter(&self.map).remaining();
            assert forall|k: K| #[trigger] m0.contains_key(k) && m0[k].expires_at <= now implies expired@.contains(
                k,
            ) by {
                assert(v.contains((&k, &m0[k])));
                let i = choose|i: int| 0 <= i < v.len() && v[i] == (&k, &m0[k]);
                assert(v[i].1.expires_at <= now);
            }
        }
        let mut j: usize = 0;
        while j < expired.len()
            invariant
                obeys_key_model::<K>(),
                m0 == old(self).map@,
                self.capacity == old(self).capacity,
                self.default_ttl == old(self).default_ttl,
                j <= expired@.len(),
                forall|k: K|
                    #[trigger] self.map@.contains_key(k) <==> (m0.contains_key(k) && !expired@.take(
                        j as int,
                    ).contains(k)),
                forall|k: K| #[trigger] self.map@.contains_key(k) ==> self.map@[k] == m0[k],
            decreases expired@.len() - j,
        {
            let _ = self.map.remove(&expired[j]);
            proof {
                assert forall|k: K| #[trigger] expired@.take(j + 1).contains(k) <==> (expired@.take(
                    j as int,
                ).contains(k) || k == expired@[j as int]) by {
                    let t0 = expired@.take(j as int);
                    let t1 = expired@.take(j + 1);
                    if t1.contains(k) {
                        let i = choose|i: int| 0 <= i < t1.len() && t1[i] == k;
                        if i < j {
                            assert(t0[i] == k);
                        }
                    }
                    if t0.contains(k) {
                        let i = choose|i: int| 0 <= i < t0.len() && t0[i] == k;
                        assert(t1[i] == k);
                    }
                    if k == expired@[j as int] {
                        assert(expired@.take(j + 1)[j as int] == k);
                    }
                }
            }
            j = j + 1;
        }
        proof {
            assert(expired@.take(expired@.len() as int) =~= expired@);
            let live = live_keys(old(self).deadlines(), now);
            assert forall|k: K| #[trigger] self.map@.contains_key(k) <==> (m0.contains_key(k) && live.contains(k)) by {
                if expired@.contains(k) {
                    let i = choose|i: int| 0 <= i < expired@.len() && expired@[i] == k;
                    assert(m0.contains_key(expired@[i]));
                }
            }
            assert(self.contents() =~= old(self).contents().restrict(live));
            assert(self.deadlines() =~= old(self).deadlines().restrict(live));
            vstd::set_lib::lemma_len_subset(self.map@.dom(), m0.dom());
        }
    }

    /// Number of live entries at time `now`; expired entries are dropped first.
    pub fn len_at(&mut self, now: u128) -> (r: usize)
        requires
            old(self).wf(),
        ensures
            final(self).wf(),
            ttl_purge_step(*old(self), *final(self), now),
            r == final(self).contents().len(),
            final(self).contents().len() <= old(self).contents().len(),
    {
        self.purge_expired(now);
        proof {
            assert(self.contents().dom() =~= self.map@.dom());
            old(self).lemma_wf();
            vstd::set_lib::lemma_len_subset(self.contents().dom(), old(self).contents().dom());
        }
        self.map.len()
    }

    /// Inserts `value` under `key` with a lifetime of `ttl`, overriding the
    /// default. Returns the previous value if `key` held a live entry; an
    /// expired entry reads as absent.
    pub fn insert_with_ttl(&mut self, key: K, value: V, ttl: Duration) -> (r: Option<V>)
        requires
            old(self).wf(),
        ensures
            final(self).wf(),
            exists|deadline: u128, now: u128|
                armed_for(deadline, ttl) && ttl_insert_step(*old(self), *final(self), key, value, deadline, now, r),
    {
        let deadline = self.compute_deadline(&ttl);
        let now = self.now();
        self.insert_at(key, value, deadline, now)
    }

    /// Removes `key`, returning its value whether or not it has expired.
    pub fn remove_entry(&mut self, key: &K) -> (r: Option<V>)
        requires
            old(self).wf(),
        ensures
            final(self).wf(),
            ttl_remove_step(*old(self), *final(self), *key, r),
    {
        let r = match self.map.remove(key) {
            Some(e) => Some(e.value),
            None => None,
        };
        proof {
            assert(self.contents() =~= old(self).contents().remove(*key));
            assert(self.deadlines() =~= old(self).deadlines().remove(*key));
            vstd::set_lib::lemma_len_subset(self.map@.dom(), old(self).map@.dom());
        }
        r
    }
}

impl<K: Copy + Eq + Hash, V: Clone> Cache<K, V> for TtlCache<K, V> {
    open spec fn inv(&self) -> bool {
        self.wf()
    }

    open spec fn ready(&self) -> bool {
        self.wf()
    }

    open spec fn entries(&self) -> nat {
        self.contents().len()
    }

    open spec fn load(&self) -> nat {
        self.contents().len()
    }

    open spec fn bound(&self) -> nat {
        self.cap()
    }

    proof fn lemma_inv(&self) {
        self.lemma_wf();
    }

    proof fn lemma_ready(&self) {
    }

    fn get(&mut self, key: &K) -> (r: Option<V>)
        ensures
            exists|now: u128| ttl_get_step(*old(self), *final(self), *key, now, r),
    {
        let now = self.now();
        self.get_at(key, now)
    }

    fn insert(&mut self, key: K, value: V) -> (r: Option<V>)
        ensures
            exists|deadline: u128, now: u128|
                armed_for(deadline, old(self).default_ttl()) && ttl_insert_step(
                    *old(self),
                    *final(self),
                    key,
                    value,
                    deadline,
                    now,
                    r,
                ),
    {
        let ttl = self.default_ttl;
        let deadline = self.compute_deadline(&ttl);
        let now = self.now();
        self.insert_at(key, value, deadline, now)
    }

    fn remove(&mut self, key: &K) -> (r: Option<V>)
        ensures
            ttl_remove_step(*old(self), *final(self), *key, r),
    {
        self.remove_entry(key)
    }

    fn contains_key(&mut self, key: &K) -> (r: bool)
        ensures
            exists|now: u128| ttl_contains_step(*old(self), *final(self), *key, now, r),
    {
        let now = self.now();
        self.contains_key_at(key, now)
    }

    fn len(&mut self) -> (r: usize)
        ensures
            exists|now: u128| ttl_purge_step(*old(self), *final(self), now),
    {
        let now = self.now();
        self.len_at(now)
    }

    fn is_empty(&mut self) -> (r: bool)
        ensures
            exists|now: u128| ttl_purge_step(*old(self), *final(self), now),
    {
        self.len() == 0
    }

    fn clear(&mut self)
        ensures
            final(self).default_ttl() == old(self).default_ttl(),
            final(self).contents() == Map::<K, V>::empty(),
    {
        self.map.clear();
        proof {
            assert(self.contents() =~= Map::<K, V>::empty());
        }
    }

    fn capacity(&self) -> (r: usize) {
        self.capacity
    }
}

/// Read after write: within the entry's lifetime, a `get` right after an
/// insert returns a clone of the inserted value.
pub proof fn lemma_ttl_insert_then_get<K, V: Clone>(
    c0: TtlCache<K, V>,
    c1: TtlCache<K, V>,
    c2: TtlCache<K, V>,
    k: K,
    v: V,
    deadline: u128,
    now: u128,
    later: u128,
    r1: Option<V>,
    r2: Option<V>,
)
    requires
        c0.wf(),
        later < deadline,
        ttl_insert_step(c0, c1, k, v, deadline, now, r1),
        ttl_get_step(c1, c2, k, later, r2),
    ensures
        r2 is Some,
        cloned(v, r2->0),
{
    ttl_written(c0, c1, k, v, deadline, now, r1);
}

/// Expired entries read as absent: once its deadline has passed, a `get` of a
/// just-written key misses and drops the entry.
pub proof fn lemma_ttl_expired_is_absent<K, V: Clone>(
    c0: TtlCache<K, V>,
    c1: TtlCache<K, V>,
    c2: TtlCache<K, V>,
    k: K,
    v: V,
    deadline: u128,
    now: u128,
    later: u128,
    r1: Option<V>,
    r2: Option<V>,
)
    requires
        c0.wf(),
        later >= deadline,
        ttl_insert_step(c0, c1, k, v, deadline, now, r1),
        ttl_get_step(c1, c2, k, later, r2),
    ensures
        r2 is None,
        !c2.contents().contains_key(k),
{
    ttl_written(c0, c1, k, v, deadline, now, r1);
}

/// After an insert, the key is stored with the written value and deadline.
proof fn ttl_written<K, V>(
    c0: TtlCache<K, V>,
    c1: TtlCache<K, V>,
    k: K,
    v: V,
    deadline: u128,
    now: u128,
    r1: Option<V>,
)
    requires
        c0.wf(),
        ttl_insert_step(c0, c1, k, v, deadline, now, r1),
    ensures
        c1.contents().contains_key(k),
        c1.contents()[k] == v,
        c1.deadlines()[k] == deadline,
{
    if !is_live(c0.deadlines(), k, now) {
        let c = c0.contents().remove(k);
        let d = c0.deadlines().remove(k);
        if c.len() >= c0.cap() {
            let victim = choose|victim: K|
                {
                    &&& is_soonest(d, victim)
                    &&& c1.contents() == c.remove(victim).insert(k, v)
                    &&& c1.deadlines() == d.remove(victim).insert(k, deadline)
                };
        }
    }
}

/// Remove then query: after `remove(k)` the cache no longer holds `k`.
pub proof fn lemma_ttl_remove_then_contains<K, V>(
    c0: TtlCache<K, V>,
    c1: TtlCache<K, V>,
    c2: TtlCache<K, V>,
    k: K,
    now: u128,
    r1: Option<V>,
    r2: bool,
)
    requires
        c0.wf(),
        ttl_remove_step(c0, c1, k, r1),
        ttl_contains_step(c1, c2, k, now, r2),
    ensures
        !r2,
{
    c0.lemma_wf();
    assert(!c1.deadlines().contains_key(k));
}

} // verus!
