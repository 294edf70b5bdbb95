use vstd::prelude::*;

verus! {

/// An item with its priority.
#[derive(Debug, Clone, Copy, PartialEq, Eq, Structural)]
pub struct HeapEntry {
    pub priority: u32,
    pub item: usize,
}

impl HeapEntry {
    pub fn new(item: usize, priority: u32) -> (r: Self)
        ensures
            r == (HeapEntry { priority, item }),
    {
        HeapEntry { priority, item }
    }
}

/// Where each item `0..capacity` currently sits, if anywhere.
#[derive(Debug)]
pub struct PositionMap {
    positions: Vec<Option<usize>>,
}

impl PositionMap {
    /// The recorded position of each item below the capacity.
    pub closed spec fn view(&self) -> Seq<Option<usize>> {
        self.positions@
    }

    /// The position of `item`; `None` for an item past the capacity.
    pub open spec fn lookup(&self, item: usize) -> Option<usize> {
        if item < self.view().len() {
            self.view()[item as int]
        } else {
            None
        }
    }

    /// A map for items `0..capacity`, none of them placed.
    pub fn new(capacity: usize) -> (r: Self)
        ensures
            r.view() == Seq::new(capacity as nat, |i: int| None::<usize>),
    {
        let mut positions: Vec<Option<usize>> = Vec::new();
        while positions.len() < capacity
            invariant
                positions@.len() <= capacity,
                forall|j: int| 0 <= j < positions@.len() ==> positions@[j] == None::<usize>,
            decreases capacity - positions@.len(),
        {
            positions.push(None);
        }
        let r = PositionMap { positions };
        assert(r.view() =~= Seq::new(capacity as nat, |i: int| None::<usize>));
        r
    }

    pub fn get(&self, item: usize) -> (r: Option<usize>)
        ensures
            r == self.lookup(item),
    {
        if item < self.positions.len() {
            self.positions[item]
        } else {
            None
        }
    }

    /// Record that `item` sits at `pos`; an item past the capacity is ignored.
    pub fn set(&mut self, item: usize, pos: usize)
        ensures
            final(self).view() == if item < old(self).view().len() {
                old(self).view().update(item as int, Some(pos))
            } else {
                old(self).view()
            },
    {
        if item < self.positions.len() {
            self.positions.set(item, Some(pos));
        }
    }

    /// Forget where `item` sits; an item past the capacity is ignored.
    pub fn remove(&mut self, item: usize)
        ensures
            final(self).view() == if item < old(self).view().len() {
                old(self).view().update(item as int, None)
            } else {
                old(self).view()
            },
    {
        if item < self.positions.len() {
            self.positions.set(item, None);
        }
    }

    pub fn contains(&self, item: usize) -> (r: bool)
        ensures
            r == self.lookup(item).is_some(),
    {
        self.get(item).is_some()
    }
}

} // verus!
