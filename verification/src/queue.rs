//! A bounded first-in, first-out queue.
//!
//! The queue has a fixed capacity chosen at construction: it is full exactly
//! when it holds `capacity` items, `enqueue` rejects further items while it
//! is full, and items leave in the order in which they entered.

use vstd::prelude::*;

verus! {

/// A bounded FIFO queue with a fixed capacity.
pub struct Queue<T> {
    queue: Vec<T>,
    capacity: usize,
}

impl<T> View for Queue<T> {
    type V = Seq<T>;

    closed spec fn view(&self) -> Seq<T> {
        self.queue@
    }
}

impl<T> Queue<T> {
    /// The queue never holds more items than its capacity. Established by
    /// [`Queue::new`] and preserved by every operation.
    pub closed spec fn wf(&self) -> bool {
        self.queue@.len() <= self.capacity
    }

    /// The fixed capacity the queue was created with.
    pub closed spec fn cap(&self) -> nat {
        self.capacity as nat
    }

    /// Create an empty queue that can hold up to `capacity` items.
    pub fn new(capacity: usize) -> (q: Self)
        ensures
            q@ == Seq::<T>::empty(),
            q.cap() == capacity,
            q.wf(),
    {
        Queue { queue: Vec::new(), capacity }
    }

    /// True when the queue holds as many items as its capacity allows.
    pub fn is_full(&self) -> (r: bool)
        ensures
            r == (self@.len() == self.cap()),
    {
        self.queue.len() == self.capacity
    }

    /// Append an item at the back of the queue. Returns `false` and leaves
    /// the queue unchanged when it is full.
    pub fn enqueue(&mut self, item: T) -> (r: bool)
        requires
            old(self).wf(),
        ensures
            final(self).wf(),
            final(self).cap() == old(self).cap(),
            old(self)@.len() == old(self).cap() ==> !r && final(self)@ == old(self)@,
            old(self)@.len() < old(self).cap() ==> r && final(self)@ == old(self)@.push(item),
    {
        if self.is_full() {
            return false;
        }
        self.queue.push(item);
        true
    }

    /// Remove and return the oldest item still in the queue, or `None` when
    /// the queue is empty.
    pub fn dequeue(&mut self) -> (r: Option<T>)
        requires
            old(self).wf(),
        ensures
            final(self).wf(),
            final(self).cap() == old(self).cap(),
            old(self)@.len() == 0 ==> r is None && final(self)@ == old(self)@,
            old(self)@.len() > 0 ==> (r matches Some(x) && x == old(self)@[0] && final(self)@
                == old(self)@.drop_first()),
    {
        if self.queue.len() == 0 {
            None
        } else {
            let item = self.queue.remove(0);
            proof {
                assert(self@ =~= old(self)@.drop_first());
            }
            Some(item)
        }
    }

    /// The number of items currently in the queue.
    pub fn size(&self) -> (n: usize)
        ensures
            n == self@.len(),
    {
        self.queue.len()
    }
}

} // verus!
