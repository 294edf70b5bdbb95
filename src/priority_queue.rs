use vstd::prelude::*;

use crate::heap::{HeapEntry, PositionMap};

verus! {

pub open spec fn parent(i: int) -> int {
    (i - 1) / 2
}

/// Entry `i` is no smaller than its parent.
pub open spec fn ordered_at(s: Seq<HeapEntry>, i: int) -> bool {
    s[parent(i)].priority <= s[i].priority
}

/// The children of `k` are no smaller than the parent of `k`.
pub open spec fn bridged_at(s: Seq<HeapEntry>, k: int, i: int) -> bool {
    s[parent(k)].priority <= s[i].priority
}

/// Every entry but the root is no smaller than its parent.
pub open spec fn is_heap(s: Seq<HeapEntry>) -> bool {
    forall|i: int| 0 < i < s.len() ==> #[trigger] ordered_at(s, i)
}

/// The heap order holds everywhere but between `k` and its parent, and the
/// parent of `k` is no larger than the children of `k`.
pub open spec fn heap_above(s: Seq<HeapEntry>, k: int) -> bool {
    &&& forall|i: int| 0 < i < s.len() && i != k ==> #[trigger] ordered_at(s, i)
    &&& forall|i: int| 0 < i < s.len() && parent(i) == k && k > 0 ==> #[trigger] bridged_at(s, k, i)
}

/// The heap order holds everywhere but between `k` and its children, and the
/// parent of `k` is no larger than the children of `k`.
pub open spec fn heap_below(s: Seq<HeapEntry>, k: int) -> bool {
    &&& forall|i: int| 0 < i < s.len() && parent(i) != k ==> #[trigger] ordered_at(s, i)
    &&& forall|i: int| 0 < i < s.len() && parent(i) == k && k > 0 ==> #[trigger] bridged_at(s, k, i)
}

/// Each entry's item is recorded at the entry's index.
pub open spec fn recorded(s: Seq<HeapEntry>, pos: Seq<Option<usize>>) -> bool {
    &&& s.len() <= usize::MAX
    &&& forall|i: int|
        #![trigger s[i]]
        0 <= i < s.len() ==> s[i].item < pos.len() && pos[s[i].item as int] == Some(i as usize)
}

/// Each recorded position holds the item recorded there.
#[verifier::opaque]
pub open spec fn placed(s: Seq<HeapEntry>, pos: Seq<Option<usize>>) -> bool {
    forall|x: int|
        #![trigger pos[x]]
        0 <= x < pos.len() && pos[x] is Some ==> pos[x]->0 < s.len() && s[pos[x]->0 as int].item
            == x
}

pub open spec fn indexed(s: Seq<HeapEntry>, pos: Seq<Option<usize>>) -> bool {
    recorded(s, pos) && placed(s, pos)
}

/// A minimum priority queue over the items `0..capacity`, backed by a binary
/// heap with a position map for decrease-key.
pub struct MinPriorityQueue {
    data: Vec<HeapEntry>,
    pos: PositionMap,
}

impl MinPriorityQueue {
    pub closed spec fn inv(&self) -> bool {
        &&& indexed(self.data@, self.pos.view())
        &&& is_heap(self.data@)
    }

    /// The items `0..capacity` that the queue can hold.
    pub closed spec fn spec_capacity(&self) -> nat {
        self.pos.view().len()
    }

    /// The priority of each queued item.
    pub closed spec fn contents(&self) -> Map<usize, u32> {
        Map::new(
            |x: usize| self.pos.lookup(x) is Some,
            |x: usize| self.data@[self.pos.lookup(x)->0 as int].priority,
        )
    }

    pub fn new(capacity: usize) -> (r: Self)
        ensures
            r.inv(),
            r.contents() == Map::<usize, u32>::empty(),
            r.spec_capacity() == capacity,
    {
        let r = MinPriorityQueue { data: Vec::new(), pos: PositionMap::new(capacity) };
        reveal(placed);
        assert(r.contents() =~= Map::<usize, u32>::empty());
        r
    }

    pub fn is_empty(&self) -> (r: bool)
        requires
            self.inv(),
        ensures
            r == (self.contents() == Map::<usize, u32>::empty()),
    {
        if self.data.len() == 0 {
            reveal(placed);
            assert(self.contents() =~= Map::<usize, u32>::empty());
            true
        } else {
            assert(self.contents().contains_key(self.data@[0].item));
            false
        }
    }

    /// Number of queued items.
    pub fn len(&self) -> (r: usize)
        requires
            self.inv(),
        ensures
            r == self.contents().dom().len(),
            self.contents().dom().finite(),
    {
        proof { self.lemma_dom_len(); }
        self.data.len()
    }

    proof fn lemma_dom_items(&self)
        requires
            self.inv(),
        ensures
            self.contents().dom() == vstd::set_lib::set_int_range(0, self.data@.len() as int).map(
                |i: int| self.data@[i].item,
            ),
    {
        let s = self.data@;
        let f = |i: int| s[i].item;
        let range = vstd::set_lib::set_int_range(0, s.len() as int);
        let items = range.map(f);
        reveal(placed);
        assert forall|x: usize| self.contents().dom().contains(x) implies items.contains(x) by {
            let i = self.pos.view()[x as int]->0 as int;
            assert(self.pos.view()[x as int] is Some);
            assert(range.contains(i));
            assert(f(i) == x);
        }
        assert forall|x: usize| items.contains(x) implies self.contents().dom().contains(x) by {
            let i = choose|i: int| range.contains(i) && f(i) == x;
            assert(s[i].item == x);
        }
        assert(self.contents().dom() =~= items);
    }

    proof fn lemma_items_injective(&self)
        requires
            self.inv(),
        ensures
            vstd::relations::injective_on(
                |i: int| self.data@[i].item,
                vstd::set_lib::set_int_range(0, self.data@.len() as int),
            ),
    {
        let s = self.data@;
        let range = vstd::set_lib::set_int_range(0, s.len() as int);
        assert forall|a: int, b: int| range.contains(a) && range.contains(b) && s[a].item == s[b].item
            implies a == b by {
            assert(0 <= a < s.len() && 0 <= b < s.len());
            assert(self.pos.view()[s[a].item as int] == Some(a as usize));
            assert(self.pos.view()[s[b].item as int] == Some(b as usize));
            assert(a as usize == b as usize);
        }
    }

    proof fn lemma_dom_len(&self)
        requires
            self.inv(),
        ensures
            self.contents().dom().len() == self.data@.len(),
            self.contents().dom().finite(),
    {
        let s = self.data@;
        let f = |i: int| s[i].item;
        let range = vstd::set_lib::set_int_range(0, s.len() as int);
        vstd::set_lib::lemma_int_range(0, s.len() as int);
        self.lemma_dom_items();
        self.lemma_items_injective();
        vstd::set_lib::lemma_map_size(range, range.map(f), f);
    }

    pub fn contains(&self, item: usize) -> (r: bool)
        ensures
            r == self.contents().contains_key(item),
    {
        self.pos.contains(item)
    }

    /// Swap two entries and record their new positions.
    fn swap_entries(&mut self, a: usize, b: usize)
        requires
            indexed(old(self).data@, old(self).pos.view()),
            a < old(self).data@.len(),
            b < old(self).data@.len(),
        ensures
            indexed(final(self).data@, final(self).pos.view()),
            final(self).data@ == old(self).data@.update(a as int, old(self).data@[b as int]).update(
                b as int,
                old(self).data@[a as int],
            ),
            final(self).pos.view().len() == old(self).pos.view().len(),
            final(self).contents() == old(self).contents(),
    {
        let ghost s = self.data@;
        let ghost pv = self.pos.view();
        let ea = self.data[a];
        let eb = self.data[b];
        self.data.set(a, eb);
        self.data.set(b, ea);
        self.pos.set(ea.item, b);
        self.pos.set(eb.item, a);
        proof {
            reveal(placed);
            let s2 = self.data@;
            let p2 = self.pos.view();
            assert(pv[ea.item as int] == Some(a));
            assert(pv[eb.item as int] == Some(b));
            assert(ea.item == eb.item ==> a == b);
            assert forall|i: int| 0 <= i < s2.len() implies s2[i].item < p2.len() && p2[s2[i].item as int]
                == Some(i as usize) by {
                if i != a && i != b {
                    assert(s2[i] == s[i]);
                    assert(pv[s[i].item as int] == Some(i as usize));
                    assert(s[i].item != ea.item && s[i].item != eb.item);
                    assert(p2[s2[i].item as int] == pv[s[i].item as int]);
                } else if i == a {
                    assert(s2[i] == eb);
                    assert(p2[eb.item as int] == Some(a));
                } else {
                    assert(s2[i] == ea);
                    assert(p2[ea.item as int] == Some(b));
                }
            }
            assert(recorded(s2, p2));
            assert forall|x: int| 0 <= x < p2.len() && p2[x] is Some implies p2[x]->0 < s2.len()
                && s2[p2[x]->0 as int].item == x by {
                if x != ea.item && x != eb.item {
                    assert(p2[x] == pv[x]);
                    let j = pv[x]->0 as int;
                    assert(s[j].item == x);
                    assert(j != a && j != b);
                }
            }
            assert(placed(s2, p2));
            assert forall|x: usize| #[trigger] self.contents().contains_key(x) == old(self).contents().contains_key(x)
                by {}
            assert forall|x: usize| self.contents().contains_key(x) implies #[trigger] self.contents()[x]
                == old(self).contents()[x] by {
                if x != ea.item && x != eb.item {
                    let j = pv[x as int]->0 as int;
                    assert(s[j].item == x);
                }
            }
            assert(self.contents() =~= old(self).contents());
        }
    }

    /// Move the entry at `idx` up until its parent is no larger.
    fn sift_up(&mut self, idx: usize)
        requires
            indexed(old(self).data@, old(self).pos.view()),
            idx < old(self).data@.len(),
            heap_above(old(self).data@, idx as int),
        ensures
            indexed(final(self).data@, final(self).pos.view()),
            is_heap(final(self).data@),
            final(self).data@.len() == old(self).data@.len(),
            final(self).pos.view().len() == old(self).pos.view().len(),
            final(self).contents() == old(self).contents(),
    {
        let mut idx = idx;
        loop
            invariant_except_break
                idx < self.data@.len(),
                heap_above(self.data@, idx as int),
            invariant
                indexed(self.data@, self.pos.view()),
                self.data@.len() == old(self).data@.len(),
                self.pos.view().len() == old(self).pos.view().len(),
                self.contents() == old(self).contents(),
            ensures
                is_heap(self.data@),
            decreases idx,
        {
            if idx == 0 {
                assert(is_heap(self.data@));
                break;
            }
            let p = (idx - 1) / 2;
            if self.data[idx].priority < self.data[p].priority {
                let ghost s = self.data@;
                self.swap_entries(idx, p);
                proof {
                    let s2 = self.data@;
                    assert forall|i: int| 0 < i < s2.len() && i != p implies #[trigger] ordered_at(s2, i) by {
                        if i == idx {
                        } else if parent(i) == idx {
                            assert(bridged_at(s, idx as int, i));
                        } else if parent(i) == p {
                            assert(ordered_at(s, i));
                        } else {
                            assert(ordered_at(s, i));
                        }
                    }
                    assert forall|i: int| 0 < i < s2.len() && parent(i) == p && p > 0 implies #[trigger] bridged_at(
                        s2,
                        p as int,
                        i,
                    ) by {
                        assert(ordered_at(s, p as int));
                        if i != idx {
                            assert(ordered_at(s, i));
                        }
                    }
                }
                idx = p;
            } else {
                assert(ordered_at(self.data@, idx as int));
                break;
            }
        }
    }

    /// Move the entry at `idx` down until no child is smaller.
    fn sift_down(&mut self, idx: usize)
        requires
            indexed(old(self).data@, old(self).pos.view()),
            idx < old(self).data@.len(),
            heap_below(old(self).data@, idx as int),
        ensures
            indexed(final(self).data@, final(self).pos.view()),
            is_heap(final(self).data@),
            final(self).data@.len() == old(self).data@.len(),
            final(self).pos.view().len() == old(self).pos.view().len(),
            final(self).contents() == old(self).contents(),
    {
        let len = self.data.len();
        let mut idx = idx;
        loop
            invariant_except_break
                idx < self.data@.len(),
                heap_below(self.data@, idx as int),
            invariant
                len == self.data@.len(),
                indexed(self.data@, self.pos.view()),
                self.data@.len() == old(self).data@.len(),
                self.pos.view().len() == old(self).pos.view().len(),
                self.contents() == old(self).contents(),
            ensures
                is_heap(self.data@),
            decreases len - idx,
        {
            if idx >= len / 2 {
                assert(is_heap(self.data@)) by {
                    assert forall|i: int| 0 < i < len implies #[trigger] ordered_at(self.data@, i) by {
                        assert(parent(i) != idx);
                    }
                }
                break;
            }
            let left = 2 * idx + 1;
            let right = left + 1;
            let mut smallest = idx;
            if self.data[left].priority < self.data[smallest].priority {
                smallest = left;
            }
            if right < len && self.data[right].priority < self.data[smallest].priority {
                smallest = right;
            }
            if smallest == idx {
                assert(is_heap(self.data@)) by {
                    assert forall|i: int| 0 < i < len implies #[trigger] ordered_at(self.data@, i) by {
                        if parent(i) == idx {
                            assert(i == left || i == right);
                        }
                    }
                }
                break;
            }
            let ghost s = self.data@;
            self.swap_entries(idx, smallest);
            proof {
                let s2 = self.data@;
                let c = smallest as int;
                assert(parent(c) == idx);
                assert forall|i: int| 0 < i < s2.len() && parent(i) != c implies #[trigger] ordered_at(s2, i) by {
                    if i == c {
                    } else if parent(i) == idx {
                        assert(i == left || i == right);
                    } else if i == idx {
                        assert(bridged_at(s, idx as int, c));
                    } else {
                        assert(ordered_at(s, i));
                    }
                }
                assert forall|i: int| 0 < i < s2.len() && parent(i) == c && c > 0 implies #[trigger] bridged_at(
                    s2,
                    c,
                    i,
                ) by {
                    assert(i != idx && i != c);
                    assert(ordered_at(s, i));
                }
            }
            idx = smallest;
        }
    }

    /// Queue `item` with `priority`.
    pub fn insert(&mut self, item: usize, priority: u32)
        requires
            old(self).inv(),
            item < old(self).spec_capacity(),
            !old(self).contents().contains_key(item),
        ensures
            final(self).inv(),
            final(self).spec_capacity() == old(self).spec_capacity(),
            final(self).contents() == old(self).contents().insert(item, priority),
    {
        let ghost s = self.data@;
        let ghost pv = self.pos.view();
        let idx = self.data.len();
        self.data.push(HeapEntry::new(item, priority));
        let _ = self.data.len();
        self.pos.set(item, idx);
        proof {
            reveal(placed);
            let s2 = self.data@;
            let p2 = self.pos.view();
            assert(pv[item as int] is None);
            assert forall|i: int| 0 <= i < s2.len() implies s2[i].item < p2.len() && p2[s2[i].item as int]
                == Some(i as usize) by {
                if i < idx {
                    assert(s2[i] == s[i]);
                    assert(pv[s[i].item as int] == Some(i as usize));
                    assert(s[i].item != item);
                }
            }
            assert(recorded(s2, p2));
            assert forall|x: int| 0 <= x < p2.len() && p2[x] is Some implies p2[x]->0 < s2.len()
                && s2[p2[x]->0 as int].item == x by {
                if x != item {
                    assert(p2[x] == pv[x]);
                }
            }
            assert(placed(s2, p2));
            assert forall|i: int| 0 < i < s2.len() && i != idx implies #[trigger] ordered_at(s2, i) by {
                assert(ordered_at(s, i));
            }
            assert(heap_above(s2, idx as int));
        }
        let ghost mid = self.contents();
        proof {
            assert forall|x: usize| mid.contains_key(x) implies #[trigger] mid[x] == old(self).contents().insert(
                item,
                priority,
            )[x] by {
                if x != item {
                    let j = pv[x as int]->0 as int;
                    assert(s[j].item == x);
                }
            }
            assert(mid =~= old(self).contents().insert(item, priority));
        }
        self.sift_up(idx);
    }

    /// Remove and return an entry of the lowest priority; `None` when empty.
    pub fn extract_min(&mut self) -> (r: Option<HeapEntry>)
        requires
            old(self).inv(),
        ensures
            final(self).inv(),
            final(self).spec_capacity() == old(self).spec_capacity(),
            match r {
                None => old(self).contents() == Map::<usize, u32>::empty() && final(self).contents()
                    == old(self).contents(),
                Some(e) => {
                    &&& old(self).contents().contains_key(e.item)
                    &&& old(self).contents()[e.item] == e.priority
                    &&& forall|x: usize| #[trigger]
                        old(self).contents().contains_key(x) ==> e.priority <= old(self).contents()[x]
                    &&& final(self).contents() == old(self).contents().remove(e.item)
                },
            },
    {
        if self.data.len() == 0 {
            reveal(placed);
            assert(self.contents() =~= Map::<usize, u32>::empty());
            return None;
        }
        let ghost s = self.data@;
        let ghost pv = self.pos.view();
        proof {
            reveal(placed);
            assert forall|x: usize| #[trigger] self.contents().contains_key(x) implies s[0].priority
                <= self.contents()[x] by {
                let j = pv[x as int]->0 as int;
                lemma_root_min(s, j);
            }
            assert(pv[s[0].item as int] == Some(0usize));
        }
        let last = self.data.len() - 1;
        self.swap_entries(0, last);
        let ghost s1 = self.data@;
        let ghost p1 = self.pos.view();
        let ghost c1 = self.contents();
        let entry = self.data.pop().unwrap();
        self.pos.remove(entry.item);
        proof {
            reveal(placed);
            let s2 = self.data@;
            let p2 = self.pos.view();
            assert(entry == s[0]);
            assert(s2 == s1.drop_last());
            assert(p1[entry.item as int] == Some(last));
            assert forall|i: int| 0 <= i < s2.len() implies s2[i].item < p2.len() && p2[s2[i].item as int]
                == Some(i as usize) by {
                assert(s2[i] == s1[i]);
                assert(p1[s1[i].item as int] == Some(i as usize));
                assert(s1[i].item != entry.item);
            }
            assert(recorded(s2, p2));
            assert forall|x: int| 0 <= x < p2.len() && p2[x] is Some implies p2[x]->0 < s2.len()
                && s2[p2[x]->0 as int].item == x by {
                assert(p2[x] == p1[x]);
                let j = p1[x]->0 as int;
                assert(s1[j].item == x);
                assert(j != last);
            }
            assert(placed(s2, p2));
            assert forall|i: int| 0 < i < s2.len() && parent(i) != 0 implies #[trigger] ordered_at(s2, i) by {
                assert(ordered_at(s, i));
            }
            assert(heap_below(s2, 0));
            assert forall|x: usize| #[trigger] self.contents().contains_key(x) == c1.remove(entry.item).contains_key(x)
                by {}
            assert forall|x: usize| self.contents().contains_key(x) implies #[trigger] self.contents()[x]
                == c1[x] by {
                let j = p1[x as int]->0 as int;
                assert(s1[j].item == x);
                assert(j != last);
            }
            assert(self.contents() =~= c1.remove(entry.item));
        }
        if self.data.len() > 0 {
            self.sift_down(0);
        } else {
            assert(is_heap(self.data@));
        }
        Some(entry)
    }

    /// Lower the priority of `item`, if it is queued.
    pub fn decrease_key(&mut self, item: usize, new_priority: u32)
        requires
            old(self).inv(),
            old(self).contents().contains_key(item) ==> new_priority <= old(self).contents()[item],
        ensures
            final(self).inv(),
            final(self).spec_capacity() == old(self).spec_capacity(),
            final(self).contents() == if old(self).contents().contains_key(item) {
                old(self).contents().insert(item, new_priority)
            } else {
                old(self).contents()
            },
    {
        match self.pos.get(item) {
            Some(idx) => {
                let ghost s = self.data@;
                let ghost pv = self.pos.view();
                proof { reveal(placed); }
                let old_entry = self.data[idx];
                self.data.set(idx, HeapEntry::new(old_entry.item, new_priority));
                proof {
                    reveal(placed);
                    let s2 = self.data@;
                    assert forall|i: int| 0 <= i < s2.len() implies s2[i].item < pv.len() && pv[s2[i].item as int]
                        == Some(i as usize) by {
                        assert(pv[s[i].item as int] == Some(i as usize));
                    }
                    assert(recorded(s2, pv));
                    assert(placed(s2, pv));
                    assert forall|i: int| 0 < i < s2.len() && i != idx implies #[trigger] ordered_at(s2, i) by {
                        assert(ordered_at(s, i));
                    }
                    assert forall|i: int| 0 < i < s2.len() && parent(i) == idx && idx > 0 implies #[trigger] bridged_at(
                        s2,
                        idx as int,
                        i,
                    ) by {
                        assert(ordered_at(s, i));
                        assert(ordered_at(s, idx as int));
                    }
                    assert forall|x: usize| self.contents().contains_key(x) implies #[trigger] self.contents()[x]
                        == old(self).contents().insert(item, new_priority)[x] by {
                        if x != item {
                            let j = pv[x as int]->0 as int;
                            assert(s[j].item == x);
                        }
                    }
                    assert(self.contents() =~= old(self).contents().insert(item, new_priority));
                }
                self.sift_up(idx);
            },
            None => {},
        }
    }
}

/// The root of a heap is no larger than any entry.
pub proof fn lemma_root_min(s: Seq<HeapEntry>, i: int)
    requires
        is_heap(s),
        0 <= i < s.len(),
    ensures
        s[0].priority <= s[i].priority,
    decreases i,
{
    if i > 0 {
        assert(ordered_at(s, i));
        lemma_root_min(s, parent(i));
    }
}

} // verus!
