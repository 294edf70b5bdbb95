use std::collections::VecDeque;
use vstd::prelude::*;

verus! {

/// What became of an item handed to [`BoundedChannel::try_send`].
pub enum SendOutcome<T> {
    /// The item was buffered.
    Sent,
    /// The channel holds `capacity` items; the item is handed back.
    Full(T),
    /// The channel was closed; the item is handed back.
    Closed(T),
}

/// What [`BoundedChannel::try_receive`] found.
pub enum Received<T> {
    /// The oldest buffered item.
    Item(T),
    /// Nothing buffered yet, but more may come.
    Empty,
    /// Nothing buffered and the channel is closed: end of stream.
    Closed,
}

/// A fixed-capacity FIFO handoff point between two stages.
///
/// This is the non-blocking state of the channel: a sender that sees `Full`
/// and a receiver that sees `Empty` are the ones that wait.
pub struct BoundedChannel<T> {
    buffer: VecDeque<T>,
    capacity: usize,
    closed: bool,
}

impl<T> BoundedChannel<T> {
    /// The buffered items, oldest first.
    pub closed spec fn items(&self) -> Seq<T> {
        self.buffer@
    }

    pub closed spec fn spec_capacity(&self) -> nat {
        self.capacity as nat
    }

    pub closed spec fn spec_closed(&self) -> bool {
        self.closed
    }

    /// At least one slot, and never more items than slots.
    pub open spec fn wf(&self) -> bool {
        &&& self.spec_capacity() >= 1
        &&& self.items().len() <= self.spec_capacity()
    }

    /// An open, empty channel with `capacity` slots.
    pub fn new(capacity: usize) -> (r: Self)
        requires
            capacity >= 1,
        ensures
            r.wf(),
            r.items() == Seq::<T>::empty(),
            r.spec_capacity() == capacity,
            !r.spec_closed(),
    {
        BoundedChannel { buffer: VecDeque::new(), capacity, closed: false }
    }

    pub fn capacity(&self) -> (r: usize)
        ensures
            r == self.spec_capacity(),
    {
        self.capacity
    }

    pub fn len(&self) -> (r: usize)
        ensures
            r == self.items().len(),
    {
        self.buffer.len()
    }

    pub fn is_closed(&self) -> (r: bool)
        ensures
            r == self.spec_closed(),
    {
        self.closed
    }

    /// Whether a send would have to wait.
    pub fn is_full(&self) -> (r: bool)
        requires
            self.wf(),
        ensures
            r == (self.items().len() == self.spec_capacity()),
    {
        self.buffer.len() >= self.capacity
    }

    /// Buffer `item` if the channel is open and has a free slot; otherwise
    /// hand it back unchanged. Nothing is ever dropped.
    pub fn try_send(&mut self, item: T) -> (r: SendOutcome<T>)
        requires
            old(self).wf(),
        ensures
            final(self).wf(),
            final(self).spec_capacity() == old(self).spec_capacity(),
            final(self).spec_closed() == old(self).spec_closed(),
            old(self).spec_closed() ==> r == SendOutcome::Closed(item) && final(self).items()
                == old(self).items(),
            !old(self).spec_closed() && old(self).items().len() == old(self).spec_capacity()
                ==> r == SendOutcome::Full(item) && final(self).items() == old(self).items(),
            !old(self).spec_closed() && old(self).items().len() < old(self).spec_capacity()
                ==> r == SendOutcome::<T>::Sent && final(self).items() == old(self).items().push(
                item,
            ),
    {
        if self.closed {
            SendOutcome::Closed(item)
        } else if self.buffer.len() >= self.capacity {
            SendOutcome::Full(item)
        } else {
            self.buffer.push_back(item);
            SendOutcome::Sent
        }
    }

    /// Take the oldest item; `Empty` while open with nothing buffered,
    /// `Closed` once closed and drained.
    pub fn try_receive(&mut self) -> (r: Received<T>)
        requires
            old(self).wf(),
        ensures
            final(self).wf(),
            final(self).spec_capacity() == old(self).spec_capacity(),
            final(self).spec_closed() == old(self).spec_closed(),
            old(self).items().len() > 0 ==> r == Received::Item(old(self).items()[0])
                && final(self).items() == old(self).items().drop_first(),
            old(self).items().len() == 0 ==> final(self).items() == old(self).items() && (if old(
                self,
            ).spec_closed() {
                r == Received::<T>::Closed
            } else {
                r == Received::<T>::Empty
            }),
    {
        match self.buffer.pop_front() {
            Some(item) => Received::Item(item),
            None => {
                if self.closed {
                    Received::Closed
                } else {
                    Received::Empty
                }
            },
        }
    }

    /// Forbid further sends; buffered items stay receivable. Idempotent.
    pub fn close(&mut self)
        requires
            old(self).wf(),
        ensures
            final(self).wf(),
            final(self).items() == old(self).items(),
            final(self).spec_capacity() == old(self).spec_capacity(),
            final(self).spec_closed(),
    {
        self.closed = true;
    }
}

} // verus!
