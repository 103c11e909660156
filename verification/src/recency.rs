//! An arena-backed doubly-linked recency list with a key index.
//!
//! Entries live in slots of a `Vec`; freed slots are recycled through a free
//! list. The list runs from the most-recently-used entry (head) to the
//! least-recently-used one (tail). A `HashMap` maps each key to its slot, so
//! lookups, promotions and evictions are O(1).
//!
//! The abstract view is a pair: `keys()`, the keys from most- to
//! least-recently used, and `contents()`, the map from key to payload.

use vstd::prelude::*;
use std::collections::HashMap;
use core::hash::Hash;
use vstd::std_specs::hash::obeys_key_model;

verus! {

broadcast use vstd::std_specs::hash::group_hash_axioms;

struct Node<K, T> {
    key: K,
    value: T,
    prev: Option<usize>,
    next: Option<usize>,
}

/// Recency-ordered store: keys with payloads, most-recently-used first.
pub struct RecencyList<K, T> {
    nodes: Vec<Option<Node<K, T>>>,
    free: Vec<usize>,
    head: Option<usize>,
    tail: Option<usize>,
    map: HashMap<K, usize>,
    /// Occupied slots, from head (most recent) to tail (least recent).
    order: Ghost<Seq<usize>>,
}

/// `s` without the element at the position where `k` stands (no change when absent).
pub open spec fn seq_without<K>(s: Seq<K>, k: K) -> Seq<K> {
    s.remove_value(k)
}

/// Moves `k` to the front of `s` (adding it when absent).
pub open spec fn seq_to_front<K>(s: Seq<K>, k: K) -> Seq<K> {
    seq![k] + s.remove_value(k)
}

/// In a sequence without duplicates, removing the value at `p` is removing position `p`.
pub proof fn lemma_remove_value_at<A>(s: Seq<A>, p: int)
    requires
        s.no_duplicates(),
        0 <= p < s.len(),
    ensures
        s.remove_value(s[p]) == s.remove(p),
{
    s.index_of_first_ensures(s[p]);
    let i = s.index_of_first(s[p]).unwrap();
    assert(i == p);
}

/// Removing a value from a sequence without duplicates keeps it duplicate-free
/// and removes exactly that value from its elements.
pub proof fn lemma_remove_value_contains<A>(s: Seq<A>, v: A)
    requires
        s.no_duplicates(),
    ensures
        s.remove_value(v).no_duplicates(),
        forall|x: A| s.remove_value(v).contains(x) <==> (s.contains(x) && x != v),
        s.contains(v) ==> s.remove_value(v).len() == s.len() - 1,
        !s.contains(v) ==> s.remove_value(v) == s,
{
    s.index_of_first_ensures(v);
    match s.index_of_first(v) {
        Some(p) => {
            let r = s.remove(p);
            assert forall|x: A| r.contains(x) <==> (s.contains(x) && x != v) by {
                if r.contains(x) {
                    let j = choose|j: int| 0 <= j < r.len() && r[j] == x;
                    if j < p {
                        assert(s[j] == x);
                        assert(j != p);
                    } else {
                        assert(s[j + 1] == x);
                    }
                }
                if s.contains(x) && x != v {
                    let j = choose|j: int| 0 <= j < s.len() && s[j] == x;
                    if j < p {
                        assert(r[j] == x);
                    } else {
                        assert(j != p);
                        assert(r[j - 1] == x);
                    }
                }
            }
            assert forall|a: int, b: int| 0 <= a < b < r.len() implies r[a] != r[b] by {
                let a2 = if a < p { a } else { a + 1 };
                let b2 = if b < p { b } else { b + 1 };
                assert(r[a] == s[a2]);
                assert(r[b] == s[b2]);
            }
        },
        None => {},
    }
}

spec fn prev_in(order: Seq<usize>, i: int) -> Option<usize> {
    if i == 0 {
        None
    } else {
        Some(order[i - 1])
    }
}

spec fn next_in(order: Seq<usize>, i: int) -> Option<usize> {
    if i + 1 == order.len() {
        None
    } else {
        Some(order[i + 1])
    }
}

spec fn first_of(order: Seq<usize>) -> Option<usize> {
    if order.len() == 0 {
        None
    } else {
        Some(order[0])
    }
}

spec fn last_of(order: Seq<usize>) -> Option<usize> {
    if order.len() == 0 {
        None
    } else {
        Some(order.last())
    }
}

spec fn linked_at<K, T>(nodes: Seq<Option<Node<K, T>>>, order: Seq<usize>, i: int) -> bool {
    let s = order[i];
    &&& (s as int) < nodes.len()
    &&& nodes[s as int] is Some
    &&& nodes[s as int].unwrap().prev == prev_in(order, i)
    &&& nodes[s as int].unwrap().next == next_in(order, i)
}

spec fn chain_ok<K, T>(
    nodes: Seq<Option<Node<K, T>>>,
    order: Seq<usize>,
    head: Option<usize>,
    tail: Option<usize>,
) -> bool {
    &&& order.no_duplicates()
    &&& forall|i: int| 0 <= i < order.len() ==> #[trigger] linked_at(nodes, order, i)
    &&& head == first_of(order)
    &&& tail == last_of(order)
}

spec fn free_ok<K, T>(nodes: Seq<Option<Node<K, T>>>, free: Seq<usize>) -> bool {
    &&& free.no_duplicates()
    &&& forall|j: int|
        0 <= j < free.len() ==> {
            &&& (#[trigger] free[j] as int) < nodes.len()
            &&& nodes[free[j] as int] is None
        }
}

spec fn index_ok<K, T>(nodes: Seq<Option<Node<K, T>>>, order: Seq<usize>, map: Map<K, usize>) -> bool {
    &&& forall|s: usize|
        #[trigger] order.contains(s) ==> {
            &&& map.contains_key(nodes[s as int].unwrap().key)
            &&& map[nodes[s as int].unwrap().key] == s
        }
    &&& forall|k: K|
        #[trigger] map.contains_key(k) ==> {
            &&& order.contains(map[k])
            &&& nodes[map[k] as int].unwrap().key == k
        }
    &&& map.len() == order.len()
}

impl<K, T> RecencyList<K, T> {
    spec fn node(&self, s: usize) -> Node<K, T> {
        self.nodes@[s as int].unwrap()
    }

    #[verifier::inline]
    spec fn prev_in_order(&self, i: int) -> Option<usize> {
        prev_in(self.order@, i)
    }

    #[verifier::inline]
    spec fn next_in_order(&self, i: int) -> Option<usize> {
        next_in(self.order@, i)
    }

    #[verifier::inline]
    spec fn first_slot(&self) -> Option<usize> {
        first_of(self.order@)
    }

    #[verifier::inline]
    spec fn last_slot(&self) -> Option<usize> {
        last_of(self.order@)
    }

    /// The slot at position `i` of the order is occupied and linked to its neighbours.
    #[verifier::inline]
    spec fn slot_linked(&self, i: int) -> bool {
        linked_at(self.nodes@, self.order@, i)
    }

    #[verifier::inline]
    spec fn links_wf(&self) -> bool {
        chain_ok(self.nodes@, self.order@, self.head, self.tail)
    }

    #[verifier::inline]
    spec fn free_wf(&self) -> bool {
        free_ok(self.nodes@, self.free@)
    }

    #[verifier::inline]
    spec fn map_wf(&self) -> bool {
        index_ok(self.nodes@, self.order@, self.map@)
    }

    /// Well-formedness of the list.
    pub closed spec fn wf(&self) -> bool {
        &&& obeys_key_model::<K>()
        &&& self.links_wf()
        &&& self.free_wf()
        &&& self.map_wf()
    }

    /// Keys, from most- to least-recently used.
    pub closed spec fn keys(&self) -> Seq<K> {
        self.order@.map_values(|s: usize| self.node(s).key)
    }

    /// Payload of each key.
    pub closed spec fn contents(&self) -> Map<K, T> {
        Map::new(|k: K| self.map@.contains_key(k), |k: K| self.node(self.map@[k]).value)
    }

    /// `slot` is where `key` is stored.
    pub closed spec fn holds(&self, slot: usize, key: K) -> bool {
        &&& self.map@.contains_key(key)
        &&& self.map@[key] == slot
    }

    proof fn lemma_slot_valid(&self, s: usize)
        requires
            self.links_wf(),
            self.order@.contains(s),
        ensures
            (s as int) < self.nodes@.len(),
            self.nodes@[s as int] is Some,
    {
        let i = choose|i: int| 0 <= i < self.order@.len() && self.order@[i] == s;
        assert(self.slot_linked(i));
    }

    /// Rewiring the chain over the same slots keeps the store well formed and
    /// its contents unchanged.
    proof fn lemma_same_entries(&self, new: &Self)
        requires
            self.wf(),
            new.links_wf(),
            new.map == self.map,
            new.free == self.free,
            self.same_payload(new),
            new.order@.len() == self.order@.len(),
            forall|s: usize| new.order@.contains(s) <==> self.order@.contains(s),
        ensures
            new.wf(),
            new.contents() == self.contents(),
    {
        assert forall|s: usize| #[trigger] new.order@.contains(s) implies {
            &&& new.map@.contains_key(new.node(s).key)
            &&& new.map@[new.node(s).key] == s
        } by {
            self.lemma_slot_valid(s);
        }
        assert forall|k: K| #[trigger] new.map@.contains_key(k) implies {
            &&& new.order@.contains(new.map@[k])
            &&& new.node(new.map@[k]).key == k
        } by {
            self.lemma_slot_valid(self.map@[k]);
        }
        assert forall|k: K| new.contents().contains_key(k) implies new.contents()[k] == self.contents()[k] by {
            self.lemma_slot_valid(self.map@[k]);
        }
        assert(new.contents() =~= self.contents());
    }

    /// The view invariant that every caller relies on: keys are distinct and are
    /// exactly the keys of the contents.
    pub proof fn lemma_view(&self)
        requires
            self.wf(),
        ensures
            self.keys().no_duplicates(),
            self.keys().len() == self.contents().len(),
            forall|k: K| #[trigger] self.keys().contains(k) <==> self.contents().contains_key(k),
            self.contents().dom().finite(),
    {
        let ks = self.keys();
        assert forall|a: int, b: int| 0 <= a < b < ks.len() implies ks[a] != ks[b] by {
            let sa = self.order@[a];
            let sb = self.order@[b];
            assert(self.order@.contains(sa));
            assert(self.order@.contains(sb));
            assert(sa != sb);
        }
        assert forall|k: K| #[trigger] ks.contains(k) <==> self.contents().contains_key(k) by {
            if ks.contains(k) {
                let i = choose|i: int| 0 <= i < ks.len() && ks[i] == k;
                assert(self.order@.contains(self.order@[i]));
            }
            if self.contents().contains_key(k) {
                let s = self.map@[k];
                assert(self.order@.contains(s));
                let i = choose|i: int| 0 <= i < self.order@.len() && self.order@[i] == s;
                assert(ks[i] == k);
            }
        }
        assert(self.contents().dom() =~= self.map@.dom());
    }
}

impl<K, T> RecencyList<K, T> {
    /// Every slot keeps its occupancy, key and payload.
    spec fn same_payload(&self, other: &Self) -> bool {
        &&& self.nodes@.len() == other.nodes@.len()
        &&& forall|x: int|
            0 <= x < self.nodes@.len() ==> {
                &&& (#[trigger] other.nodes@[x] is Some) == (self.nodes@[x] is Some)
                &&& other.nodes@[x] is Some ==> other.nodes@[x].unwrap().key == self.nodes@[x].unwrap().key
                    && other.nodes@[x].unwrap().value == self.nodes@[x].unwrap().value
            }
    }

    fn set_next(&mut self, s: usize, next: Option<usize>)
        requires
            (s as int) < old(self).nodes@.len(),
            old(self).nodes@[s as int] is Some,
        ensures
            final(self).nodes@ == old(self).nodes@.update(
                s as int,
                Some(Node { next: next, ..old(self).node(s) }),
            ),
            final(self).free == old(self).free,
            final(self).head == old(self).head,
            final(self).tail == old(self).tail,
            final(self).map == old(self).map,
            final(self).order == old(self).order,
    {
        match &mut self.nodes[s] {
            Some(n) => {
                n.next = next;
            },
            None => {},
        }
    }

    fn set_prev(&mut self, s: usize, prev: Option<usize>)
        requires
            (s as int) < old(self).nodes@.len(),
            old(self).nodes@[s as int] is Some,
        ensures
            final(self).nodes@ == old(self).nodes@.update(
                s as int,
                Some(Node { prev: prev, ..old(self).node(s) }),
            ),
            final(self).free == old(self).free,
            final(self).head == old(self).head,
            final(self).tail == old(self).tail,
            final(self).map == old(self).map,
            final(self).order == old(self).order,
    {
        match &mut self.nodes[s] {
            Some(n) => {
                n.prev = prev;
            },
            None => {},
        }
    }

    /// Takes the entry at position `p` of the order out of the chain; the slot
    /// stays occupied, with both of its links cleared.
    fn unlink(&mut self, s: usize, Ghost(p): Ghost<int>)
        requires
            old(self).links_wf(),
            0 <= p < old(self).order@.len(),
            old(self).order@[p] == s,
        ensures
            final(self).links_wf(),
            final(self).order@ == old(self).order@.remove(p),
            old(self).same_payload(final(self)),
            final(self).free == old(self).free,
            final(self).map == old(self).map,
            (s as int) < final(self).nodes@.len(),
            final(self).nodes@[s as int] is Some,
            final(self).node(s).prev is None,
            final(self).node(s).next is None,
    {
        let ghost o = self.order@;
        assert(self.slot_linked(p));
        let prev = self.nodes[s].as_ref().unwrap().prev;
        let next = self.nodes[s].as_ref().unwrap().next;
        let ghost n0 = self.nodes@;
        proof {
            if p > 0 {
                assert(self.slot_linked(p - 1));
            }
            if p + 1 < o.len() {
                assert(self.slot_linked(p + 1));
            }
        }
        match prev {
            Some(ps) => {
                self.set_next(ps, next);
            },
            None => {
                self.head = next;
            },
        }
        match next {
            Some(ns) => {
                self.set_prev(ns, prev);
            },
            None => {
                self.tail = prev;
            },
        }
        self.order = Ghost(o.remove(p));
        proof {
            let o2 = self.order@;
            assert forall|i: int| 0 <= i < o2.len() implies #[trigger] self.slot_linked(i) by {
                let j = if i < p { i } else { i + 1 };
                assert(o2[i] == o[j]);
                assert(old(self).slot_linked(j));
                if j > 0 {
                    assert(old(self).slot_linked(j - 1));
                }
                if j + 1 < o.len() {
                    assert(old(self).slot_linked(j + 1));
                }
            }
            assert forall|a: int, b: int| 0 <= a < b < o2.len() implies o2[a] != o2[b] by {
                let a2 = if a < p { a } else { a + 1 };
                let b2 = if b < p { b } else { b + 1 };
                assert(o2[a] == o[a2]);
                assert(o2[b] == o[b2]);
            }
            assert forall|x: int| 0 <= x < self.nodes@.len() implies {
                &&& (#[trigger] self.nodes@[x] is Some) == (n0[x] is Some)
                &&& self.nodes@[x] is Some ==> self.nodes@[x].unwrap().key == n0[x].unwrap().key
                    && self.nodes@[x].unwrap().value == n0[x].unwrap().value
            } by {}
            assert(old(self).slot_linked(p));
        }
        let ghost mid = *self;
        self.set_prev(s, None);
        self.set_next(s, None);
        proof {
            let o2 = self.order@;
            assert(!o2.contains(s)) by {
                if o2.contains(s) {
                    let i = choose|i: int| 0 <= i < o2.len() && o2[i] == s;
                    let j = if i < p { i } else { i + 1 };
                    assert(o2[i] == o[j]);
                    assert(j != p);
                }
            }
            assert forall|i: int| 0 <= i < o2.len() implies #[trigger] self.slot_linked(i) by {
                assert(mid.slot_linked(i));
                assert(o2[i] != s);
            }
            assert forall|x: int| 0 <= x < self.nodes@.len() implies {
                &&& (#[trigger] self.nodes@[x] is Some) == (n0[x] is Some)
                &&& self.nodes@[x] is Some ==> self.nodes@[x].unwrap().key == n0[x].unwrap().key
                    && self.nodes@[x].unwrap().value == n0[x].unwrap().value
            } by {
                assert(mid.nodes@[x] is Some == (n0[x] is Some));
            }
        }
    }

    /// Links the occupied, unlisted slot `s` in as the new head.
    fn link_front(&mut self, s: usize)
        requires
            old(self).links_wf(),
            (s as int) < old(self).nodes@.len(),
            old(self).nodes@[s as int] is Some,
            !old(self).order@.contains(s),
        ensures
            final(self).links_wf(),
            final(self).order@ == seq![s] + old(self).order@,
            old(self).same_payload(final(self)),
            final(self).free == old(self).free,
            final(self).map == old(self).map,
    {
        let ghost o = self.order@;
        let old_head = self.head;
        proof {
            if o.len() > 0 {
                assert(self.slot_linked(0));
                assert(o.contains(o[0]));
            }
        }
        self.set_prev(s, None);
        self.set_next(s, old_head);
        match old_head {
            Some(h) => {
                self.set_prev(h, Some(s));
            },
            None => {
                self.tail = Some(s);
            },
        }
        self.head = Some(s);
        self.order = Ghost(seq![s] + o);
        proof {
            let o2 = self.order@;
            assert forall|i: int| 0 <= i < o2.len() implies #[trigger] self.slot_linked(i) by {
                if i > 0 {
                    assert(o2[i] == o[i - 1]);
                    assert(old(self).slot_linked(i - 1));
                    if i > 1 {
                        assert(old(self).slot_linked(i - 2));
                    }
                    if i < o.len() {
                        assert(old(self).slot_linked(i));
                    }
                    assert(o2[i] != s);
                }
            }
            assert forall|a: int, b: int| 0 <= a < b < o2.len() implies o2[a] != o2[b] by {
                if a == 0 {
                    assert(o2[b] == o[b - 1]);
                    assert(o.contains(o[b - 1]));
                } else {
                    assert(o2[a] == o[a - 1]);
                    assert(o2[b] == o[b - 1]);
                }
            }
        }
    }
}

impl<K: Copy + Eq + Hash, T> RecencyList<K, T> {
    /// An empty list, with room reserved for `capacity` entries.
    pub fn new(capacity: usize) -> (r: Self)
        requires
            obeys_key_model::<K>(),
        ensures
            r.wf(),
            r.keys() == Seq::<K>::empty(),
            r.contents() == Map::<K, T>::empty(),
    {
        let r = RecencyList {
            nodes: Vec::with_capacity(capacity),
            free: Vec::new(),
            head: None,
            tail: None,
            map: HashMap::with_capacity(capacity),
            order: Ghost(Seq::empty()),
        };
        assert(r.keys() =~= Seq::<K>::empty());
        assert(r.contents() =~= Map::<K, T>::empty());
        r
    }

    /// Number of entries.
    pub fn len(&self) -> (r: usize)
        requires
            self.wf(),
        ensures
            r == self.keys().len(),
            r == self.contents().len(),
    {
        proof {
            self.lemma_view();
        }
        self.map.len()
    }

    /// The slot of `key`, if present.
    pub fn slot_of(&self, key: &K) -> (r: Option<usize>)
        requires
            self.wf(),
        ensures
            r is Some <==> self.contents().contains_key(*key),
            r matches Some(s) ==> self.holds(s, *key),
    {
        match self.map.get(key) {
            Some(s) => Some(*s),
            None => None,
        }
    }

    /// Whether `key` is present.
    pub fn contains(&self, key: &K) -> (r: bool)
        requires
            self.wf(),
        ensures
            r == self.contents().contains_key(*key),
    {
        self.map.contains_key(key)
    }

    /// The payload in `slot`, which holds `key`.
    pub fn value(&self, slot: usize, Ghost(key): Ghost<K>) -> (r: &T)
        requires
            self.wf(),
            self.holds(slot, key),
        ensures
            self.contents().contains_key(key),
            *r == self.contents()[key],
    {
        proof {
            self.lemma_slot_valid(slot);
        }
        &self.nodes[slot].as_ref().unwrap().value
    }

    /// The least-recently-used key, if any.
    pub fn lru_key(&self) -> (r: Option<K>)
        requires
            self.wf(),
        ensures
            self.keys().len() == 0 ==> r is None,
            self.keys().len() > 0 ==> r == Some(self.keys().last()),
    {
        match self.tail {
            Some(t) => {
                assert(self.slot_linked(self.order@.len() - 1));
                Some(self.nodes[t].as_ref().unwrap().key)
            },
            None => None,
        }
    }
}

impl<K: Copy + Eq + Hash, T> RecencyList<K, T> {
    /// Moves the entry of `key`, stored in `slot`, to the most-recently-used end.
    pub fn promote(&mut self, slot: usize, Ghost(key): Ghost<K>)
        requires
            old(self).wf(),
            old(self).holds(slot, key),
        ensures
            final(self).wf(),
            final(self).keys() == seq_to_front(old(self).keys(), key),
            final(self).contents() == old(self).contents(),
            final(self).holds(slot, key),
    {
        let ghost o = self.order@;
        proof {
            self.lemma_view();
            self.lemma_slot_valid(slot);
        }
        let ghost p = choose|p: int| 0 <= p < o.len() && o[p] == slot;
        proof {
            assert(self.keys()[p] == key);
            lemma_remove_value_at(self.keys(), p);
        }
        if self.head == Some(slot) {
            proof {
                assert(p == 0);
                assert(seq_to_front(self.keys(), key) =~= self.keys());
            }
            return;
        }
        let ghost before = *self;
        self.unlink(slot, Ghost(p));
        self.link_front(slot);
        proof {
            let o2 = self.order@;
            assert(o2 == seq![slot] + o.remove(p));
            assert forall|x: usize| o2.contains(x) <==> o.contains(x) by {
                if o.contains(x) {
                    let j = choose|j: int| 0 <= j < o.len() && o[j] == x;
                    if j < p {
                        assert(o2[j + 1] == x);
                    } else if j > p {
                        assert(o2[j] == x);
                    } else {
                        assert(o2[0] == x);
                    }
                }
                if o2.contains(x) {
                    let j = choose|j: int| 0 <= j < o2.len() && o2[j] == x;
                    if j == 0 {
                        assert(o[p] == x);
                    } else if j - 1 < p {
                        assert(o[j - 1] == x);
                    } else {
                        assert(o[j] == x);
                    }
                }
            }
            before.lemma_same_entries(self);
            assert(self.keys() =~= seq![key] + before.keys().remove(p)) by {
                assert forall|i: int| 0 <= i < o2.len() implies self.node(o2[i]).key == before.node(
                    o2[i],
                ).key by {
                    assert(o2.contains(o2[i]));
                    before.lemma_slot_valid(o2[i]);
                }
            }
        }
    }

    /// Replaces the payload of `key`, stored in `slot`, and returns the old one.
    pub fn replace(&mut self, slot: usize, Ghost(key): Ghost<K>, value: T) -> (r: T)
        requires
            old(self).wf(),
            old(self).holds(slot, key),
        ensures
            final(self).wf(),
            final(self).keys() == old(self).keys(),
            final(self).contents() == old(self).contents().insert(key, value),
            old(self).contents().contains_key(key),
            r == old(self).contents()[key],
            final(self).holds(slot, key),
    {
        proof {
            self.lemma_slot_valid(slot);
        }
        let ghost before = *self;
        let mut v = value;
        match &mut self.nodes[slot] {
            Some(n) => {
                std::mem::swap(&mut n.value, &mut v);
            },
            None => {},
        }
        proof {
            assert forall|i: int| 0 <= i < self.order@.len() implies #[trigger] self.slot_linked(i) by {
                assert(before.slot_linked(i));
            }
            assert forall|j: int| 0 <= j < self.free@.len() implies {
                &&& (#[trigger] self.free@[j] as int) < self.nodes@.len()
                &&& self.nodes@[self.free@[j] as int] is None
            } by {
                assert(before.free@[j] != slot);
            }
            assert forall|x: usize| #[trigger] self.order@.contains(x) implies {
                &&& self.map@.contains_key(self.node(x).key)
                &&& self.map@[self.node(x).key] == x
            } by {
                before.lemma_slot_valid(x);
            }
            assert forall|i: int| 0 <= i < self.order@.len() implies self.node(self.order@[i]).key
                == before.node(self.order@[i]).key by {
                assert(before.slot_linked(i));
            }
            assert(self.keys() =~= before.keys());
            assert(before.map@.contains_key(key));
            assert(before.node(slot).key == key);
            assert(self.nodes@.len() == before.nodes@.len());
            assert(forall|x: int| 0 <= x < self.nodes@.len() && x != slot ==> self.nodes@[x] == before.nodes@[x]);
            assert forall|k: K| #[trigger] before.map@.contains_key(k) && k != key implies self.node(
                self.map@[k],
            ).value == before.node(before.map@[k]).value by {
                let s2 = before.map@[k];
                assert(before.node(s2).key == k);
                assert(s2 != slot);
                assert(self.map@[k] == s2);
                before.lemma_slot_valid(s2);
                assert(self.nodes@[s2 as int] == before.nodes@[s2 as int]);
            }
            assert(self.contents() =~= before.contents().insert(key, value));
        }
        v
    }

    /// Adds a new entry for `key` at the most-recently-used end.
    pub fn push_front(&mut self, key: K, value: T)
        requires
            old(self).wf(),
            !old(self).contents().contains_key(key),
        ensures
            final(self).wf(),
            final(self).keys() == seq![key] + old(self).keys(),
            final(self).contents() == old(self).contents().insert(key, value),
    {
        let ghost before = *self;
        let node = Node { key: key, value: value, prev: None, next: None };
        let idx = match self.free.pop() {
            Some(idx) => {
                proof {
                    assert(before.free@[before.free@.len() - 1] == idx);
                }
                self.nodes.set(idx, Some(node));
                idx
            },
            None => {
                self.nodes.push(Some(node));
                self.nodes.len() - 1
            },
        };
        proof {
            assert(!self.order@.contains(idx)) by {
                if self.order@.contains(idx) {
                    before.lemma_slot_valid(idx);
                }
            }
            assert forall|i: int| 0 <= i < self.order@.len() implies #[trigger] self.slot_linked(i) by {
                assert(before.slot_linked(i));
                assert(self.order@.contains(self.order@[i]));
            }
        }
        let ghost mid = *self;
        self.link_front(idx);
        assert(self.order@[0] == idx);
        assert(self.head == self.first_slot());
        assert(self.links_wf());
        let ghost mid2 = *self;
        let _ = self.map.insert(key, idx);
        assert(self.nodes == mid2.nodes);
        assert(self.order == mid2.order);
        assert(self.head == mid2.head);
        assert(self.tail == mid2.tail);
        proof {
            let o = before.order@;
            let o2 = self.order@;
            assert(o2 == seq![idx] + o);
            // free list
            assert forall|j: int| 0 <= j < self.free@.len() implies {
                &&& (#[trigger] self.free@[j] as int) < self.nodes@.len()
                &&& self.nodes@[self.free@[j] as int] is None
            } by {
                assert(self.free@[j] == before.free@[j]);
                assert(before.free@[j] != idx);
            }
            assert(self.free@.no_duplicates());
            // map
            assert forall|x: usize| #[trigger] o2.contains(x) implies {
                &&& self.map@.contains_key(self.node(x).key)
                &&& self.map@[self.node(x).key] == x
            } by {
                if x != idx {
                    let j = choose|j: int| 0 <= j < o2.len() && o2[j] == x;
                    assert(o[j - 1] == x);
                    assert(o.contains(x));
                    before.lemma_slot_valid(x);
                    assert(self.node(x).key == before.node(x).key);
                    assert(before.map@.contains_key(before.node(x).key));
                }
            }
            assert forall|k: K| #[trigger] self.map@.contains_key(k) implies {
                &&& o2.contains(self.map@[k])
                &&& self.node(self.map@[k]).key == k
            } by {
                if k != key {
                    let s = before.map@[k];
                    assert(o.contains(s));
                    before.lemma_slot_valid(s);
                    let j = choose|j: int| 0 <= j < o.len() && o[j] == s;
                    assert(o2[j + 1] == s);
                } else {
                    assert(o2[0] == idx);
                }
            }
            assert(self.keys() =~= seq![key] + before.keys()) by {
                assert forall|i: int| 1 <= i < o2.len() implies self.node(o2[i]).key == before.node(
                    o2[i],
                ).key by {
                    assert(o2[i] == o[i - 1]);
                    assert(o.contains(o[i - 1]));
                    before.lemma_slot_valid(o[i - 1]);
                }
            }
            assert(self.map@.len() == o2.len());
            assert(self.links_wf());
            assert(self.free_wf());
            assert(self.map_wf());
            assert(self.contents() =~= before.contents().insert(key, value)) by {
                assert forall|k: K| #[trigger] before.map@.contains_key(k) implies self.node(
                    self.map@[k],
                ).value == before.node(before.map@[k]).value by {
                    if k != key {
                        before.lemma_slot_valid(before.map@[k]);
                    }
                }
            }
        }
    }
    /// Takes the entry at position `p` (slot `s`) out of the store.
    fn take_slot(&mut self, s: usize, Ghost(p): Ghost<int>) -> (r: (K, T))
        requires
            old(self).wf(),
            0 <= p < old(self).order@.len(),
            old(self).order@[p] == s,
        ensures
            final(self).wf(),
            r.0 == old(self).keys()[p],
            old(self).contents().contains_key(r.0),
            r.1 == old(self).contents()[r.0],
            final(self).keys() == old(self).keys().remove(p),
            final(self).contents() == old(self).contents().remove(r.0),
    {
        let ghost before = *self;
        proof {
            assert(before.slot_linked(p));
            assert(before.order@.contains(s));
        }
        self.unlink(s, Ghost(p));
        let ghost mid = *self;
        let mut taken: Option<Node<K, T>> = None;
        std::mem::swap(&mut self.nodes[s], &mut taken);
        let node = taken.unwrap();
        proof {
            assert(!self.free@.contains(s)) by {
                if self.free@.contains(s) {
                    let j = choose|j: int| 0 <= j < self.free@.len() && self.free@[j] == s;
                    assert(before.free@[j] == s);
                }
            }
        }
        self.free.push(s);
        let _ = self.map.remove(&node.key);
        proof {
            let o = before.order@;
            let o2 = self.order@;
            let key = node.key;
            assert(key == before.node(s).key);
            assert(!o2.contains(s)) by {
                lemma_remove_value_at(o, p);
                lemma_remove_value_contains(o, s);
            }
            assert forall|x: usize| #[trigger] o2.contains(x) <==> (o.contains(x) && x != s) by {
                lemma_remove_value_at(o, p);
                lemma_remove_value_contains(o, s);
            }
            assert forall|i: int| 0 <= i < o2.len() implies #[trigger] self.slot_linked(i) by {
                assert(mid.slot_linked(i));
                assert(o2.contains(o2[i]));
            }
            assert forall|j: int| 0 <= j < self.free@.len() implies {
                &&& (#[trigger] self.free@[j] as int) < self.nodes@.len()
                &&& self.nodes@[self.free@[j] as int] is None
            } by {
                if j < before.free@.len() {
                    assert(self.free@[j] == before.free@[j]);
                }
            }
            assert forall|x: usize| #[trigger] o2.contains(x) implies {
                &&& self.map@.contains_key(self.node(x).key)
                &&& self.map@[self.node(x).key] == x
            } by {
                before.lemma_slot_valid(x);
                assert(self.node(x).key == before.node(x).key);
                assert(before.map@[before.node(x).key] == x);
            }
            assert forall|k: K| #[trigger] self.map@.contains_key(k) implies {
                &&& o2.contains(self.map@[k])
                &&& self.node(self.map@[k]).key == k
            } by {
                let x = before.map@[k];
                assert(o.contains(x));
                before.lemma_slot_valid(x);
            }
            assert(self.keys() =~= before.keys().remove(p)) by {
                assert forall|i: int| 0 <= i < o2.len() implies self.node(o2[i]).key == before.node(
                    o2[i],
                ).key by {
                    assert(o2.contains(o2[i]));
                    before.lemma_slot_valid(o2[i]);
                }
            }
            assert(self.contents() =~= before.contents().remove(key)) by {
                assert forall|k: K| #[trigger] self.map@.contains_key(k) implies self.node(
                    self.map@[k],
                ).value == before.node(before.map@[k]).value by {
                    before.lemma_slot_valid(before.map@[k]);
                }
            }
        }
        (node.key, node.value)
    }

    /// Removes and returns the least-recently-used entry.
    pub fn pop_lru(&mut self) -> (r: Option<(K, T)>)
        requires
            old(self).wf(),
        ensures
            final(self).wf(),
            old(self).keys().len() == 0 ==> r is None && final(self).keys() == old(self).keys()
                && final(self).contents() == old(self).contents(),
            old(self).keys().len() > 0 ==> {
                let k = old(self).keys().last();
                &&& r == Some((k, old(self).contents()[k]))
                &&& old(self).contents().contains_key(k)
                &&& final(self).keys() == old(self).keys().drop_last()
                &&& final(self).contents() == old(self).contents().remove(k)
            },
    {
        match self.tail {
            Some(t) => {
                let ghost p = self.order@.len() - 1;
                let r = self.take_slot(t, Ghost(p));
                proof {
                    assert(old(self).keys().remove(p) =~= old(self).keys().drop_last());
                }
                Some(r)
            },
            None => None,
        }
    }

    /// Removes the entry of `key`, returning its payload.
    pub fn remove(&mut self, key: &K) -> (r: Option<T>)
        requires
            old(self).wf(),
        ensures
            final(self).wf(),
            r == (if old(self).contents().contains_key(*key) {
                Some(old(self).contents()[*key])
            } else {
                None::<T>
            }),
            final(self).keys() == seq_without(old(self).keys(), *key),
            final(self).contents() == old(self).contents().remove(*key),
    {
        proof {
            self.lemma_view();
        }
        match self.slot_of(key) {
            Some(s) => {
                proof {
                    assert(self.order@.contains(s));
                }
                let ghost p = choose|p: int| 0 <= p < self.order@.len() && self.order@[p] == s;
                proof {
                    assert(self.keys()[p] == *key);
                    lemma_remove_value_at(self.keys(), p);
                }
                let (_, v) = self.take_slot(s, Ghost(p));
                Some(v)
            },
            None => {
                proof {
                    lemma_remove_value_contains(self.keys(), *key);
                    assert(self.contents().remove(*key) =~= self.contents());
                }
                None
            },
        }
    }

    /// Removes every entry.
    pub fn clear(&mut self)
        requires
            old(self).wf(),
        ensures
            final(self).wf(),
            final(self).keys() == Seq::<K>::empty(),
            final(self).contents() == Map::<K, T>::empty(),
    {
        self.nodes.clear();
        self.free.clear();
        self.head = None;
        self.tail = None;
        self.map.clear();
        self.order = Ghost(Seq::empty());
        proof {
            assert(self.keys() =~= Seq::<K>::empty());
            assert(self.contents() =~= Map::<K, T>::empty());
        }
    }
}

} // verus!
