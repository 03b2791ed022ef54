//! A last-in, first-out stack.
use vstd::prelude::*;

verus! {

/// A stack: `push` adds on top, `pop` takes from the top.
#[derive(Debug)]
pub struct VecWrapper<T> {
    items: Vec<T>,
}

impl<T> View for VecWrapper<T> {
    type V = Seq<T>;

    /// The items, bottom first.
    closed spec fn view(&self) -> Seq<T> {
        self.items@
    }
}

impl<T> VecWrapper<T> {
    /// An empty stack.
    pub fn new() -> (r: Self)
        ensures
            r@ == Seq::<T>::empty(),
    {
        VecWrapper { items: Vec::new() }
    }

    /// Puts `item` on top.
    pub fn push(&mut self, item: T)
        ensures
            final(self)@ == old(self)@.push(item),
    {
        self.items.push(item);
    }

    /// Takes the top item, or `None` when the stack is empty.
    pub fn pop(&mut self) -> (r: Option<T>)
        ensures
            old(self)@.len() == 0 ==> r is None && final(self)@ == old(self)@,
            old(self)@.len() > 0 ==> r == Some(old(self)@.last()) && final(self)@ == old(self)@.drop_last(),
    {
        self.items.pop()
    }

    /// The number of items.
    pub fn len(&self) -> (r: usize)
        ensures
            r == self@.len(),
    {
        self.items.len()
    }
}

} // verus!
