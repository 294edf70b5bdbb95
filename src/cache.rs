use std::collections::HashMap;
use std::hash::Hash;
use vstd::prelude::*;
use vstd::std_specs::hash::obeys_key_model;

use crate::lru::DoublyLinkedList;

verus! {

broadcast use vstd::std_specs::hash::group_hash_axioms;

/// The position of the entry with key `k`, if any.
pub open spec fn holds_key<K, V>(e: Seq<(K, V)>, k: K) -> bool {
    exists|p: int| 0 <= p < e.len() && #[trigger] e[p].0 == k
}

/// No two entries share a key.
pub open spec fn distinct_keys<K, V>(e: Seq<(K, V)>) -> bool {
    forall|p: int, q: int| 0 <= p < e.len() && 0 <= q < e.len() && p != q ==> #[trigger] e[p].0 != #[trigger] e[q].0
}

/// A fixed-capacity cache that evicts the least recently used entry.
///
/// A hash map finds the slot of a key; the doubly linked list keeps the
/// entries in order of use, most recent first.
pub struct LRUCache<K, V> {
    capacity: usize,
    map: HashMap<K, usize>,
    list: DoublyLinkedList<K, V>,
}

impl<K: Copy + Eq + Hash, V: Copy> LRUCache<K, V> {
    /// The entries, most recently used first.
    pub closed spec fn entries(&self) -> Seq<(K, V)> {
        self.list.entries()
    }

    pub closed spec fn spec_capacity(&self) -> nat {
        self.capacity as nat
    }

    pub closed spec fn inv(&self) -> bool {
        let e = self.list.entries();
        let sl = self.list.slots();
        &&& obeys_key_model::<K>()
        &&& self.capacity > 0
        &&& self.list.wf()
        &&& e.len() <= self.capacity
        &&& distinct_keys(e)
        &&& forall|k: K| self.map@.contains_key(k) <==> holds_key(e, k)
        &&& forall|p: int| 0 <= p < e.len() ==> self.map@[#[trigger] e[p].0] == sl[p]
    }

    /// An empty cache for at most `capacity` entries.
    pub fn new(capacity: usize) -> (r: Self)
        requires
            capacity > 0,
            obeys_key_model::<K>(),
        ensures
            r.inv(),
            r.entries() == Seq::<(K, V)>::empty(),
            r.spec_capacity() == capacity,
    {
        LRUCache { capacity, map: HashMap::with_capacity(capacity), list: DoublyLinkedList::new() }
    }

    /// The value for `key`, which becomes the most recently used entry;
    /// `None` on a miss, with nothing changed.
    pub fn get(&mut self, key: &K) -> (r: Option<&V>)
        requires
            old(self).inv(),
        ensures
            final(self).inv(),
            final(self).spec_capacity() == old(self).spec_capacity(),
            r is None ==> !holds_key(old(self).entries(), *key) && final(self).entries() == old(self).entries(),
            r matches Some(v) ==> exists|p: int|
                0 <= p < old(self).entries().len() && old(self).entries()[p].0 == *key && *v
                    == old(self).entries()[p].1 && final(self).entries() == seq![old(self).entries()[p]]
                    + old(self).entries().remove(p),
    {
        let ghost e = self.list.entries();
        let ghost sl = self.list.slots();
        proof { self.list.lemma_slots(); }
        match self.map.get(key) {
            Some(found) => {
                let idx = *found;
                assert(holds_key(e, *key));
                let ghost p = choose|p: int| 0 <= p < e.len() && #[trigger] e[p].0 == *key;
                assert(sl[p] == idx);
                assert(sl.contains(idx));
                self.list.move_to_front(idx);
                proof {
                    self.list.lemma_slots();
                    self.lemma_after_move(e, sl, p);
                }
                assert(self.list.slots()[0] == idx);
                assert(self.list.slots().contains(idx));
                let r = self.list.get_value(idx);
                assert(self.list.entries() == seq![e[p]] + e.remove(p));
                assert(r == Some(&self.list.entries()[0].1));
                assert(self.list.entries()[0] == e[p]);
                assert(e == old(self).entries());
                assert(0 <= p < old(self).entries().len() && old(self).entries()[p].0 == *key && *r->0
                    == old(self).entries()[p].1 && self.entries() == seq![old(self).entries()[p]]
                    + old(self).entries().remove(p));
                r
            },
            None => {
                assert(!self.map@.contains_key(*key));
                None
            },
        }
    }

    proof fn lemma_after_move(&self, e: Seq<(K, V)>, sl: Seq<usize>, p: int)
        requires
            0 <= p < e.len(),
            e.len() == sl.len(),
            sl.no_duplicates(),
            distinct_keys(e),
            forall|k: K| self.map@.contains_key(k) <==> holds_key(e, k),
            forall|i: int| 0 <= i < e.len() ==> self.map@[#[trigger] e[i].0] == sl[i],
            self.list.entries() == seq![e[p]] + e.remove(p),
            self.list.slots() == seq![sl[p]] + sl.remove(p),
        ensures
            distinct_keys(self.list.entries()),
            forall|k: K| self.map@.contains_key(k) <==> holds_key(self.list.entries(), k),
            forall|i: int| 0 <= i < self.list.entries().len() ==> self.map@[#[trigger] self.list.entries()[i].0]
                == self.list.slots()[i],
    {
        let e2 = self.list.entries();
        let s2 = self.list.slots();
        let back = |i: int| if i == 0 { p } else if i <= p { i - 1 } else { i };
        assert forall|i: int| 0 <= i < e2.len() implies #[trigger] e2[i] == e[back(i)] && s2[i] == sl[back(i)] by {}
        assert forall|a: int, b: int| 0 <= a < e2.len() && 0 <= b < e2.len() && a != b implies #[trigger] e2[a].0
            != #[trigger] e2[b].0 by {
            assert(e2[a] == e[back(a)] && e2[b] == e[back(b)]);
        }
        assert forall|k: K| self.map@.contains_key(k) <==> holds_key(e2, k) by {
            if holds_key(e, k) {
                let i = choose|i: int| 0 <= i < e.len() && #[trigger] e[i].0 == k;
                let j = if i == p { 0 } else if i < p { i + 1 } else { i };
                assert(e2[j] == e[back(j)]);
                assert(e2[j].0 == k);
            }
            if holds_key(e2, k) {
                let j = choose|j: int| 0 <= j < e2.len() && #[trigger] e2[j].0 == k;
                assert(e2[j] == e[back(j)]);
                assert(e[back(j)].0 == k);
            }
        }
        assert forall|i: int| 0 <= i < e2.len() implies self.map@[#[trigger] e2[i].0] == s2[i] by {
            assert(e2[i] == e[back(i)] && s2[i] == sl[back(i)]);
            assert(self.map@[e[back(i)].0] == sl[back(i)]);
        }
    }

    /// Insert or update `key`, which becomes the most recently used entry.
    /// A new key in a full cache first evicts the least recently used entry.
    pub fn put(&mut self, key: K, value: V)
        requires
            old(self).inv(),
        ensures
            final(self).inv(),
            final(self).spec_capacity() == old(self).spec_capacity(),
            holds_key(old(self).entries(), key) ==> exists|p: int|
                0 <= p < old(self).entries().len() && old(self).entries()[p].0 == key && final(self).entries()
                    == seq![(key, value)] + old(self).entries().remove(p),
            !holds_key(old(self).entries(), key) && old(self).entries().len() >= old(self).spec_capacity()
                ==> final(self).entries() == seq![(key, value)] + old(self).entries().drop_last(),
            !holds_key(old(self).entries(), key) && old(self).entries().len() < old(self).spec_capacity()
                ==> final(self).entries() == seq![(key, value)] + old(self).entries(),
    {
        let ghost e = self.list.entries();
        let ghost sl = self.list.slots();
        proof { self.list.lemma_slots(); }
        match self.map.get(&key) {
            Some(found) => {
                let idx = *found;
                assert(holds_key(e, key));
                let ghost p = choose|p: int| 0 <= p < e.len() && #[trigger] e[p].0 == key;
                assert(sl[p] == idx);
                assert(sl.contains(idx));
                self.list.update_value(idx, value);
                let ghost e1 = self.list.entries();
                assert(e1 == e.update(p, (key, value)));
                self.list.move_to_front(idx);
                proof {
                    self.list.lemma_slots();
                    assert(distinct_keys(e1)) by {
                        assert forall|a: int, b: int| 0 <= a < e1.len() && 0 <= b < e1.len() && a != b
                            implies #[trigger] e1[a].0 != #[trigger] e1[b].0 by {
                            assert(e[a].0 != e[b].0);
                        }
                    }
                    assert forall|k: K| self.map@.contains_key(k) <==> holds_key(e1, k) by {
                        if holds_key(e, k) {
                            let i = choose|i: int| 0 <= i < e.len() && #[trigger] e[i].0 == k;
                            assert(e1[i].0 == k);
                        }
                        if holds_key(e1, k) {
                            let i = choose|i: int| 0 <= i < e1.len() && #[trigger] e1[i].0 == k;
                            assert(e[i].0 == k);
                        }
                    }
                    assert forall|i: int| 0 <= i < e1.len() implies self.map@[#[trigger] e1[i].0] == sl[i] by {
                        assert(e1[i].0 == e[i].0);
                    }
                    self.lemma_after_move(e1, sl, p);
                    assert(self.list.entries() =~= seq![(key, value)] + e.remove(p)) by {
                        assert(e1.remove(p) =~= e.remove(p));
                    }
                }
                return;
            },
            None => {},
        }
        assert(!holds_key(e, key));
        if self.list.len() >= self.capacity {
            let evicted = self.list.remove_tail();
            proof { self.list.lemma_slots(); }
            match evicted {
                Some(old_key) => {
                    assert(old_key == e.last().0);
                    self.map.remove(&old_key);
                    proof {
                        let e1 = self.list.entries();
                        let s1 = self.list.slots();
                        assert(e1 == e.drop_last() && s1 == sl.drop_last());
                        assert forall|k: K| self.map@.contains_key(k) <==> holds_key(e1, k) by {
                            if holds_key(e, k) && k != old_key {
                                let i = choose|i: int| 0 <= i < e.len() && #[trigger] e[i].0 == k;
                                assert(i != e.len() - 1);
                                assert(e1[i].0 == k);
                            }
                            if holds_key(e1, k) {
                                let i = choose|i: int| 0 <= i < e1.len() && #[trigger] e1[i].0 == k;
                                assert(e[i].0 == k);
                                assert(e[i].0 != e[e.len() - 1].0);
                            }
                        }
                        assert forall|i: int| 0 <= i < e1.len() implies self.map@[#[trigger] e1[i].0] == s1[i] by {
                            assert(e[i].0 != e[e.len() - 1].0);
                        }
                    }
                },
                None => {},
            }
        }
        let ghost e1 = self.list.entries();
        let ghost s1 = self.list.slots();
        assert(!holds_key(e1, key)) by {
            if holds_key(e1, key) {
                let i = choose|i: int| 0 <= i < e1.len() && #[trigger] e1[i].0 == key;
                if e1.len() < e.len() {
                    assert(e1[i] == e[i]);
                } else {
                    assert(e1[i] == e[i]);
                }
            }
        }
        let idx = self.list.push_front(key, value);
        self.map.insert(key, idx);
        proof {
            self.list.lemma_slots();
            let e2 = self.list.entries();
            let s2 = self.list.slots();
            assert forall|a: int, b: int| 0 <= a < e2.len() && 0 <= b < e2.len() && a != b implies #[trigger] e2[a].0
                != #[trigger] e2[b].0 by {
                if a > 0 && b > 0 {
                    assert(e1[a - 1].0 != e1[b - 1].0);
                } else if a == 0 {
                    assert(e1[b - 1].0 != key);
                } else {
                    assert(e1[a - 1].0 != key);
                }
            }
            assert forall|k: K| self.map@.contains_key(k) <==> holds_key(e2, k) by {
                if k == key {
                    assert(e2[0].0 == key);
                } else {
                    if holds_key(e1, k) {
                        let i = choose|i: int| 0 <= i < e1.len() && #[trigger] e1[i].0 == k;
                        assert(e2[i + 1].0 == k);
                    }
                    if holds_key(e2, k) {
                        let i = choose|i: int| 0 <= i < e2.len() && #[trigger] e2[i].0 == k;
                        assert(i > 0);
                        assert(e1[i - 1].0 == k);
                    }
                }
            }
            assert forall|i: int| 0 <= i < e2.len() implies self.map@[#[trigger] e2[i].0] == s2[i] by {
                if i > 0 {
                    assert(e2[i] == e1[i - 1]);
                    assert(e1[i - 1].0 != key);
                }
            }
        }
    }

    /// Whether `key` is cached; the order of use is left alone.
    pub fn contains(&self, key: &K) -> (r: bool)
        requires
            self.inv(),
        ensures
            r == holds_key(self.entries(), *key),
    {
        self.map.contains_key(key)
    }

    /// Number of cached entries.
    pub fn len(&self) -> (r: usize)
        requires
            self.inv(),
        ensures
            r == self.entries().len(),
    {
        self.list.len()
    }
}

} // verus!
