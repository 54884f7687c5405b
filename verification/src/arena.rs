//! Append-only storage for nodes.
//!
//! An arena hands out integer indices as stable node references: a slot, once
//! allocated, keeps its index for the whole life of the arena, and there is no
//! way to free an individual slot.  Nodes are therefore reached by index
//! through the arena rather than through pointers.

use vstd::prelude::*;

verus! {

/// A growable array of records with stable indices and no per-record
/// deallocation.
pub struct Arena<T> {
    pub items: Vec<T>,
}

impl<T> View for Arena<T> {
    type V = Seq<T>;

    open spec fn view(&self) -> Seq<T> {
        self.items@
    }
}

impl<T> Arena<T> {
    /// An arena with no allocations yet.
    pub fn new() -> (a: Self)
        ensures
            a@ == Seq::<T>::empty(),
    {
        Arena { items: Vec::new() }
    }

    /// The number of slots allocated so far.
    pub fn len(&self) -> (n: usize)
        ensures
            n == self@.len(),
    {
        self.items.len()
    }

    /// Appends a record and returns the index of its slot.
    pub fn allocate(&mut self, t: T) -> (i: usize)
        ensures
            final(self)@ == old(self)@.push(t),
            i == old(self)@.len(),
    {
        let i = self.items.len();
        self.items.push(t);
        i
    }

    /// A shared borrow of the record in slot `i`.
    pub fn get(&self, i: usize) -> (r: &T)
        requires
            i < self@.len(),
        ensures
            *r == self@[i as int],
    {
        &self.items[i]
    }
}

} // verus!
