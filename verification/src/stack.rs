//! A simple stack backed by a `Vec`, with a separately tracked size counter.

use vstd::prelude::*;

verus! {

/// A last-in, first-out stack.
pub struct Stack<T> {
    items: Vec<T>,
    size: i32,
}

impl<T> View for Stack<T> {
    type V = Seq<T>;

    closed spec fn view(&self) -> Seq<T> {
        self.items@
    }
}

impl<T> Stack<T> {
    /// The size counter mirrors the number of stored items. Established by
    /// [`Stack::new`] and preserved by every operation.
    pub closed spec fn wf(&self) -> bool {
        self.size == self.items@.len() && self.items@.len() <= i32::MAX
    }

    /// Create an empty stack.
    pub fn new() -> (s: Self)
        ensures
            s@ == Seq::<T>::empty(),
            s.wf(),
    {
        Stack { items: Vec::new(), size: 0 }
    }

    /// Push an item on top of the stack.
    pub fn put(&mut self, item: T)
        requires
            old(self).wf(),
            old(self)@.len() < i32::MAX,
        ensures
            final(self).wf(),
            final(self)@ == old(self)@.push(item),
    {
        self.items.push(item);
        self.size = self.size + 1;
    }

    /// Remove and return the most recently pushed item, or `None` when the
    /// stack is empty.
    pub fn pop(&mut self) -> (r: Option<T>)
        requires
            old(self).wf(),
        ensures
            final(self).wf(),
            old(self)@.len() == 0 ==> r is None && final(self)@ == old(self)@,
            old(self)@.len() > 0 ==> (r matches Some(x) && x == old(self)@.last() && final(self)@
                == old(self)@.drop_last()),
    {
        if self.size == 0 {
            None
        } else {
            self.size = self.size - 1;
            self.items.pop()
        }
    }

    /// Returns a reference to the most recently pushed item without removing
    /// it, or `None` when the stack is empty.
    pub fn top(&self) -> (r: Option<&T>)
        ensures
            self@.len() == 0 ==> r is None,
            self@.len() > 0 ==> (r matches Some(x) && *x == self@.last()),
    {
        if self.items.len() == 0 {
            None
        } else {
            Some(&self.items[self.items.len() - 1])
        }
    }

    /// The number of items on the stack.
    pub fn size(&self) -> (n: i32)
        requires
            self.wf(),
        ensures
            n == self@.len(),
    {
        self.size
    }
}

} // verus!
