use vstd::prelude::*;

verus! {

/// A node of the doubly linked list behind the LRU cache: links are slot
/// indices into the list's node vector.
#[derive(Debug, Clone, Copy)]
pub struct CacheEntry<K, V> {
    pub key: K,
    pub value: V,
    pub prev: Option<usize>,
    pub next: Option<usize>,
}

impl<K, V> CacheEntry<K, V> {
    pub fn new(key: K, value: V) -> (r: Self)
        ensures
            r.key == key,
            r.value == value,
            r.prev is None,
            r.next is None,
    {
        CacheEntry { key, value, prev: None, next: None }
    }
}

/// An index-based doubly linked list: nodes live in a vector of slots,
/// emptied slots are kept on a free list for reuse.
pub struct DoublyLinkedList<K, V> {
    nodes: Vec<Option<CacheEntry<K, V>>>,
    head: Option<usize>,
    tail: Option<usize>,
    free: Vec<usize>,
    len: usize,
    order: Ghost<Seq<usize>>,
}

/// The node at position `p` of `order` links to its neighbours in `order`.
pub open spec fn linked<K, V>(nodes: Seq<Option<CacheEntry<K, V>>>, order: Seq<usize>, p: int) -> bool {
    &&& order[p] < nodes.len()
    &&& nodes[order[p] as int] is Some
    &&& nodes[order[p] as int]->0.prev == if p > 0 { Some(order[p - 1]) } else { None }
    &&& nodes[order[p] as int]->0.next == if p + 1 < order.len() { Some(order[p + 1]) } else { None }
}

/// A duplicate-free sequence of numbers below `m` has at most `m` entries.
pub proof fn lemma_distinct_bounded(o: Seq<usize>, m: nat)
    requires
        o.no_duplicates(),
        forall|i: int| 0 <= i < o.len() ==> #[trigger] o[i] < m,
    ensures
        o.len() <= m,
{
    let s = o.map_values(|x: usize| x as int);
    assert(s.no_duplicates()) by {
        assert forall|i: int, j: int| 0 <= i < s.len() && 0 <= j < s.len() && i != j implies s[i] != s[j] by {
            assert(o[i] != o[j]);
        }
    }
    let range = vstd::set_lib::set_int_range(0, m as int);
    vstd::set_lib::lemma_int_range(0, m as int);
    assert(s.to_set().subset_of(range)) by {
        assert forall|x: int| s.to_set().contains(x) implies range.contains(x) by {
            let i = choose|i: int| 0 <= i < s.len() && s[i] == x;
            assert(o[i] < m);
        }
    }
    s.unique_seq_to_set();
    vstd::seq_lib::seq_to_set_is_finite(s);
    vstd::set_lib::lemma_len_subset(s.to_set(), range);
}

impl<K: Copy, V: Copy> DoublyLinkedList<K, V> {
    /// The slots of the entries, head (most recent) first.
    pub closed spec fn slots(&self) -> Seq<usize> {
        self.order@
    }

    /// The key and value at each slot of `slots()`, head first.
    pub closed spec fn entries(&self) -> Seq<(K, V)> {
        self.order@.map_values(|i: usize| (self.nodes@[i as int]->0.key, self.nodes@[i as int]->0.value))
    }

    /// The number of slots, live or free.
    pub closed spec fn slot_count(&self) -> nat {
        self.nodes@.len()
    }

    /// The slot that the next insertion takes.
    pub closed spec fn next_slot(&self) -> usize {
        if self.free@.len() > 0 {
            self.free@.last()
        } else {
            self.nodes@.len() as usize
        }
    }

    pub closed spec fn wf(&self) -> bool {
        let o = self.order@;
        let n = self.nodes@;
        &&& self.len == o.len()
        &&& o.no_duplicates()
        &&& forall|p: int| 0 <= p < o.len() ==> #[trigger] linked(n, o, p)
        &&& forall|j: int| 0 <= j < n.len() && (#[trigger] n[j]) is Some ==> o.contains(j as usize)
        &&& self.head == if o.len() > 0 { Some(o[0]) } else { None::<usize> }
        &&& self.tail == if o.len() > 0 { Some(o.last()) } else { None::<usize> }
        &&& self.free@.no_duplicates()
        &&& forall|k: int| 0 <= k < self.free@.len() ==> #[trigger] self.free@[k] < n.len()
            && n[self.free@[k] as int] is None
    }

    /// Each entry has its own slot, and every slot is in range.
    pub proof fn lemma_slots(&self)
        requires
            self.wf(),
        ensures
            self.slots().len() == self.entries().len(),
            self.slots().no_duplicates(),
            forall|i: int| 0 <= i < self.slots().len() ==> #[trigger] self.slots()[i] < self.slot_count(),
    {
        assert forall|i: int| 0 <= i < self.slots().len() implies #[trigger] self.slots()[i] < self.slot_count() by {
            assert(linked(self.nodes@, self.order@, i));
        }
    }

    pub fn new() -> (r: Self)
        ensures
            r.wf(),
            r.entries() == Seq::<(K, V)>::empty(),
            r.slots() == Seq::<usize>::empty(),
    {
        let r = DoublyLinkedList {
            nodes: Vec::new(),
            head: None,
            tail: None,
            free: Vec::new(),
            len: 0,
            order: Ghost(Seq::empty()),
        };
        assert(r.entries() =~= Seq::<(K, V)>::empty());
        r
    }

    pub fn len(&self) -> (r: usize)
        requires
            self.wf(),
        ensures
            r == self.entries().len(),
    {
        self.len
    }

    /// Put `entry` into a free slot, reusing one if any; returns the slot.
    fn alloc_slot(&mut self, entry: CacheEntry<K, V>) -> (idx: usize)
        requires
            old(self).wf(),
        ensures
            idx < final(self).nodes@.len(),
            !old(self).order@.contains(idx),
            idx < old(self).nodes@.len() ==> old(self).nodes@[idx as int] is None,
            final(self).nodes@ == if idx < old(self).nodes@.len() {
                old(self).nodes@.update(idx as int, Some(entry))
            } else {
                old(self).nodes@.push(Some(entry))
            },
            idx == old(self).next_slot(),
            final(self).free@.no_duplicates(),
            forall|k: int| 0 <= k < final(self).free@.len() ==> #[trigger] final(self).free@[k] != idx
                && final(self).free@[k] < final(self).nodes@.len() && final(self).nodes@[final(self).free@[k] as int] is None,
            final(self).head == old(self).head,
            final(self).tail == old(self).tail,
            final(self).len == old(self).len,
            final(self).order == old(self).order,
    {
        let ghost o = self.order@;
        match self.free.pop() {
            Some(idx) => {
                let ghost f = old(self).free@;
                assert(f.last() == idx);
                assert(f[f.len() - 1] == idx);
                assert(self.nodes@[idx as int] is None);
                assert(!o.contains(idx)) by {
                    if o.contains(idx) {
                        let p = choose|p: int| 0 <= p < o.len() && o[p] == idx;
                        assert(linked(self.nodes@, o, p));
                    }
                }
                self.nodes.set(idx, Some(entry));
                assert forall|k: int| 0 <= k < self.free@.len() implies #[trigger] self.free@[k] != idx
                    && self.free@[k] < self.nodes@.len() && self.nodes@[self.free@[k] as int] is None by {
                    assert(self.free@[k] == f[k]);
                    assert(f[k] != f[f.len() - 1]);
                }
                idx
            },
            None => {
                let idx = self.nodes.len();
                assert(!o.contains(idx)) by {
                    if o.contains(idx) {
                        let p = choose|p: int| 0 <= p < o.len() && o[p] == idx;
                        assert(linked(self.nodes@, o, p));
                    }
                }
                self.nodes.push(Some(entry));
                idx
            },
        }
    }

    /// Insert a new entry at the front; returns its slot.
    pub fn push_front(&mut self, key: K, value: V) -> (idx: usize)
        requires
            old(self).wf(),
        ensures
            final(self).wf(),
            final(self).entries() == seq![(key, value)] + old(self).entries(),
            final(self).slots() == seq![idx] + old(self).slots(),
            idx == old(self).next_slot(),
            final(self).slot_count() == if idx < old(self).slot_count() {
                old(self).slot_count()
            } else {
                old(self).slot_count() + 1
            },
    {
        let ghost o = self.order@;
        let entry = CacheEntry { key, value, prev: None, next: self.head };
        let idx = self.alloc_slot(entry);
        let ghost n1 = self.nodes@;
        if let Some(old_head) = self.head {
            assert(linked(old(self).nodes@, o, 0));
            let mut h = self.nodes[old_head].unwrap();
            h.prev = Some(idx);
            self.nodes.set(old_head, Some(h));
        }
        self.head = Some(idx);
        if self.tail.is_none() {
            self.tail = Some(idx);
        }
        let count = self.nodes.len();
        proof {
            let q = seq![idx] + o;
            let n = self.nodes@;
            assert forall|p: int| 0 <= p < o.len() implies o[p] != idx && #[trigger] linked(old(self).nodes@, o, p) by {
                assert(linked(old(self).nodes@, o, p));
            }
            assert(q.no_duplicates()) by {
                assert forall|i: int, j: int| 0 <= i < q.len() && 0 <= j < q.len() && i != j implies q[i] != q[j] by {
                    if i > 0 && j > 0 {
                        assert(o[i - 1] != o[j - 1]);
                    } else if i == 0 {
                        assert(linked(old(self).nodes@, o, j - 1));
                    } else {
                        assert(linked(old(self).nodes@, o, i - 1));
                    }
                }
            }
            assert forall|p: int| 0 <= p < q.len() implies #[trigger] linked(n, q, p) by {
                if p == 0 {
                    if o.len() > 0 {
                        assert(linked(old(self).nodes@, o, 0));
                        assert(o[0] != idx);
                    }
                } else {
                    assert(linked(old(self).nodes@, o, p - 1));
                    assert(q[p] == o[p - 1]);
                    if p >= 2 {
                        assert(o[p - 1] != o[0]);
                    }
                }
            }
            assert forall|j: int| 0 <= j < n.len() && (#[trigger] n[j]) is Some implies q.contains(j as usize) by {
                if j != idx {
                    assert(old(self).nodes@[j] is Some);
                    assert(o.contains(j as usize));
                    let p = choose|p: int| 0 <= p < o.len() && o[p] == j as usize;
                    assert(q[p + 1] == j as usize);
                } else {
                    assert(q[0] == idx);
                }
            }
            assert forall|k: int| 0 <= k < self.free@.len() implies #[trigger] self.free@[k] < n.len()
                && n[self.free@[k] as int] is None by {
                if o.len() > 0 {
                    assert(self.free@[k] != o[0]) by {
                        assert(linked(old(self).nodes@, o, 0));
                    }
                }
            }
            assert forall|i: int| 0 <= i < q.len() implies #[trigger] q[i] < count by {
                assert(linked(n, q, i));
            }
            lemma_distinct_bounded(q, count as nat);
            self.order = Ghost(q);
            assert(self.entries() =~= seq![(key, value)] + old(self).entries());
        }
        self.len = self.len + 1;
        idx
    }

    /// Unlink the entry in slot `idx` and free the slot; returns its key, or
    /// `None` when the slot is empty.
    #[verifier::rlimit(60)]
    fn remove_node(&mut self, idx: usize) -> (r: Option<K>)
        requires
            old(self).wf(),
            idx < old(self).slot_count(),
        ensures
            final(self).wf(),
            final(self).slot_count() == old(self).slot_count(),
            match r {
                None => !old(self).slots().contains(idx) && final(self).slots() == old(self).slots()
                    && final(self).entries() == old(self).entries(),
                Some(k) => forall|p: int|
                    0 <= p < old(self).slots().len() && old(self).slots()[p] == idx ==> {
                        &&& k == old(self).entries()[p].0
                        &&& final(self).slots() == old(self).slots().remove(p)
                        &&& final(self).entries() == old(self).entries().remove(p)
                        &&& final(self).next_slot() == idx
                    },
            },
    {
        let ghost o = self.order@;
        let ghost n0 = self.nodes@;
        let node = match self.nodes[idx] {
            Some(n) => n,
            None => {
                assert(!o.contains(idx)) by {
                    if o.contains(idx) {
                        let p = choose|p: int| 0 <= p < o.len() && o[p] == idx;
                        assert(linked(n0, o, p));
                    }
                }
                return None;
            },
        };
        assert(o.contains(idx));
        let ghost p = choose|p: int| 0 <= p < o.len() && o[p] == idx;
        assert(linked(n0, o, p));
        assert forall|i: int| 0 <= i < o.len() && i != p implies o[i] != idx by {}
        self.nodes.set(idx, None);
        let prev = node.prev;
        let next = node.next;
        match prev {
            Some(pi) => {
                assert(linked(n0, o, p - 1));
                let mut pn = self.nodes[pi].unwrap();
                pn.next = next;
                self.nodes.set(pi, Some(pn));
            },
            None => {
                self.head = next;
            },
        }
        match next {
            Some(ni) => {
                assert(linked(n0, o, p + 1));
                let mut nn = self.nodes[ni].unwrap();
                nn.prev = prev;
                self.nodes.set(ni, Some(nn));
            },
            None => {
                self.tail = prev;
            },
        }
        let ghost f0 = self.free@;
        self.free.push(idx);
        let count = self.nodes.len();
        proof {
            let q = o.remove(p);
            let n = self.nodes@;
            assert forall|r: int| 0 <= r < q.len() implies #[trigger] linked(n, q, r) by {
                if r < p {
                    assert(q[r] == o[r]);
                    assert(linked(n0, o, r));
                    assert(o[r] != idx);
                    if r + 1 < p {
                        assert(q[r + 1] == o[r + 1]);
                    }
                    if r > 0 {
                        assert(q[r - 1] == o[r - 1]);
                    }
                    if r < p - 1 {
                        assert(o[r] != o[p - 1]);
                        if p + 1 < o.len() {
                            assert(o[r] != o[p + 1]);
                        }
                    } else if p + 1 < o.len() {
                        assert(o[r] != o[p + 1]);
                    }
                } else {
                    assert(q[r] == o[r + 1]);
                    assert(linked(n0, o, r + 1));
                    assert(o[r + 1] != idx);
                    if r + 1 < q.len() {
                        assert(q[r + 1] == o[r + 2]);
                    }
                    if r > p {
                        assert(q[r - 1] == o[r]);
                        assert(o[r + 1] != o[p + 1]);
                        if p > 0 {
                            assert(o[r + 1] != o[p - 1]);
                        }
                    } else {
                        if p > 0 {
                            assert(q[r - 1] == o[p - 1]);
                            assert(o[r + 1] != o[p - 1]);
                        }
                    }
                }
            }
            assert(q.no_duplicates()) by {
                assert forall|i: int, j: int| 0 <= i < q.len() && 0 <= j < q.len() && i != j implies q[i] != q[j] by {
                    let a = if i < p { i } else { i + 1 };
                    let b = if j < p { j } else { j + 1 };
                    assert(o[a] != o[b]);
                }
            }
            assert forall|j: int| 0 <= j < n.len() && (#[trigger] n[j]) is Some implies q.contains(j as usize) by {
                assert(j != idx);
                assert(n0[j] is Some);
                assert(o.contains(j as usize));
                let i = choose|i: int| 0 <= i < o.len() && o[i] == j as usize;
                assert(i != p);
                if i < p {
                    assert(q[i] == j as usize);
                } else {
                    assert(q[i - 1] == j as usize);
                }
            }
            assert(self.free@ == f0.push(idx));
            assert(self.free@.no_duplicates()) by {
                assert forall|i: int, j: int| 0 <= i < self.free@.len() && 0 <= j < self.free@.len() && i != j
                    implies self.free@[i] != self.free@[j] by {
                    if i < f0.len() && j < f0.len() {
                        assert(f0[i] != f0[j]);
                    } else if i < f0.len() {
                        assert(n0[f0[i] as int] is None);
                    } else {
                        assert(n0[f0[j] as int] is None);
                    }
                }
            }
            assert forall|k: int| 0 <= k < self.free@.len() implies #[trigger] self.free@[k] < n.len()
                && n[self.free@[k] as int] is None by {
                if k < f0.len() {
                    assert(n0[f0[k] as int] is None);
                    assert(f0[k] != o[p - 1] || p == 0);
                    if p > 0 {
                        assert(linked(n0, o, p - 1));
                    }
                    if p + 1 < o.len() {
                        assert(linked(n0, o, p + 1));
                    }
                }
            }
            if q.len() > 0 {
                if p == 0 {
                    assert(q[0] == o[1]);
                }
                if p == o.len() - 1 {
                    assert(q.last() == o[p - 1]);
                } else {
                    assert(q.last() == o.last());
                }
            }
            assert forall|j: int| 0 <= j < n.len() && j != idx && (#[trigger] n[j]) is Some implies n[j]->0.key
                == n0[j]->0.key && n[j]->0.value == n0[j]->0.value by {}
            self.order = Ghost(q);
            assert forall|r: int| 0 <= r < q.len() implies #[trigger] self.entries()[r] == old(self).entries().remove(p)[r] by {
                assert(linked(n, q, r));
                if r < p {
                    assert(q[r] == o[r]);
                } else {
                    assert(q[r] == o[r + 1]);
                }
                assert(q[r] != idx);
            }
            assert(self.entries() =~= old(self).entries().remove(p));
            assert forall|p2: int| 0 <= p2 < o.len() && o[p2] == idx implies p2 == p by {}
        }
        self.len = self.len - 1;
        Some(node.key)
    }

    /// Remove the entry at the back (least recently used); returns its key.
    pub fn remove_tail(&mut self) -> (r: Option<K>)
        requires
            old(self).wf(),
        ensures
            final(self).wf(),
            final(self).slot_count() == old(self).slot_count(),
            old(self).entries().len() == 0 ==> r is None && final(self).entries() == old(self).entries()
                && final(self).slots() == old(self).slots(),
            old(self).entries().len() > 0 ==> r == Some(old(self).entries().last().0)
                && final(self).entries() == old(self).entries().drop_last()
                && final(self).slots() == old(self).slots().drop_last(),
    {
        match self.tail {
            None => None,
            Some(t) => {
                let ghost o = self.order@;
                assert(linked(self.nodes@, o, o.len() - 1));
                let r = self.remove_node(t);
                assert(o[o.len() - 1] == t);
                assert(o.remove(o.len() - 1) =~= o.drop_last());
                assert(old(self).entries().remove(o.len() - 1) =~= old(self).entries().drop_last());
                r
            },
        }
    }

    /// Move the entry in slot `idx` to the front; it keeps its slot.
    pub fn move_to_front(&mut self, idx: usize)
        requires
            old(self).wf(),
            old(self).slots().contains(idx),
        ensures
            final(self).wf(),
            final(self).slot_count() == old(self).slot_count(),
            forall|p: int|
                0 <= p < old(self).slots().len() && old(self).slots()[p] == idx ==> {
                    &&& final(self).slots() == seq![idx] + old(self).slots().remove(p)
                    &&& final(self).entries() == seq![old(self).entries()[p]] + old(self).entries().remove(p)
                },
    {
        let ghost o = self.order@;
        let ghost p = choose|p: int| 0 <= p < o.len() && o[p] == idx;
        assert(linked(self.nodes@, o, p));
        assert forall|p2: int| 0 <= p2 < o.len() && o[p2] == idx implies p2 == p by {}
        if self.head == Some(idx) {
            assert(p == 0);
            assert(seq![idx] + o.remove(0) =~= o);
            assert(seq![old(self).entries()[0]] + old(self).entries().remove(0) =~= old(self).entries());
            return;
        }
        let node = self.nodes[idx].unwrap();
        let _ = self.remove_node(idx);
        let slot = self.push_front(node.key, node.value);
        assert(slot == idx);
    }

    /// Replace the value stored in slot `idx`, leaving the order alone.
    pub fn update_value(&mut self, idx: usize, value: V)
        requires
            old(self).wf(),
            idx < old(self).slot_count(),
        ensures
            final(self).wf(),
            final(self).slot_count() == old(self).slot_count(),
            final(self).slots() == old(self).slots(),
            !old(self).slots().contains(idx) ==> final(self).entries() == old(self).entries(),
            forall|p: int|
                0 <= p < old(self).slots().len() && old(self).slots()[p] == idx ==> final(self).entries()
                    == old(self).entries().update(p, (old(self).entries()[p].0, value)),
    {
        let ghost o = self.order@;
        let ghost n0 = self.nodes@;
        match self.nodes[idx] {
            Some(found) => {
                let mut node = found;
                node.value = value;
                self.nodes.set(idx, Some(node));
                proof {
                    let n = self.nodes@;
                    assert forall|r: int| 0 <= r < o.len() implies #[trigger] linked(n, o, r) by {
                        assert(linked(n0, o, r));
                    }
                    assert forall|j: int| 0 <= j < n.len() && (#[trigger] n[j]) is Some implies o.contains(j as usize) by {
                        assert(n0[j] is Some);
                    }
                    assert forall|k: int| 0 <= k < self.free@.len() implies #[trigger] self.free@[k] < n.len()
                        && n[self.free@[k] as int] is None by {
                        assert(n0[self.free@[k] as int] is None);
                    }
                    assert forall|p: int| 0 <= p < o.len() && o[p] == idx implies self.entries() =~= old(self).entries().update(
                        p,
                        (old(self).entries()[p].0, value),
                    ) by {
                        let e = old(self).entries().update(p, (old(self).entries()[p].0, value));
                        assert forall|r: int| 0 <= r < o.len() implies #[trigger] self.entries()[r] == e[r] by {
                            assert(linked(n0, o, r));
                            if r != p {
                                assert(o[r] != idx);
                                assert(n[o[r] as int] == n0[o[r] as int]);
                            } else {
                                assert(n[idx as int] == Some(node));
                                assert(node.key == n0[idx as int]->0.key);
                            }
                        }
                    }
                }
            },
            None => {
                assert(!o.contains(idx)) by {
                    if o.contains(idx) {
                        let p = choose|p: int| 0 <= p < o.len() && o[p] == idx;
                        assert(linked(n0, o, p));
                    }
                }
            },
        }
    }

    /// The value stored in slot `idx`, if the slot holds an entry.
    pub fn get_value(&self, idx: usize) -> (r: Option<&V>)
        requires
            self.wf(),
            idx < self.slot_count(),
        ensures
            r is Some <==> self.slots().contains(idx),
            forall|p: int|
                0 <= p < self.slots().len() && self.slots()[p] == idx ==> r == Some(&self.entries()[p].1),
    {
        let ghost o = self.order@;
        proof {
            if o.contains(idx) {
                let p = choose|p: int| 0 <= p < o.len() && o[p] == idx;
                assert(linked(self.nodes@, o, p));
            }
        }
        match &self.nodes[idx] {
            Some(node) => Some(&node.value),
            None => None,
        }
    }

    /// The entries from the front (most recent) to the back.
    pub fn iter_forward(&self) -> (r: Vec<(K, V)>)
        requires
            self.wf(),
        ensures
            r@ == self.entries(),
    {
        let ghost o = self.order@;
        let mut result: Vec<(K, V)> = Vec::new();
        let mut cur = self.head;
        let mut i: usize = 0;
        while i < self.len
            invariant
                self.wf(),
                o == self.order@,
                i <= o.len(),
                cur == if i < o.len() { Some(o[i as int]) } else { None::<usize> },
                result@ == self.entries().take(i as int),
            decreases o.len() - i,
        {
            assert(linked(self.nodes@, o, i as int));
            let idx = cur.unwrap();
            let node = self.nodes[idx].unwrap();
            result.push((node.key, node.value));
            assert(result@ =~= self.entries().take(i as int + 1));
            cur = node.next;
            i += 1;
        }
        assert(self.entries().take(i as int) =~= self.entries());
        result
    }
}

} // verus!
