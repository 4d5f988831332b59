use std::marker::PhantomData;
use vstd::prelude::*;

verus! {

/// Keeps count of how many nodes are live.
///
/// A table owns one of these; its count is the table's element count, and it
/// changes only when a node is created or destroyed.
pub struct Allocator<T> {
    pub size: usize,
    pub marker: PhantomData<T>,
}

impl<T> Allocator<T> {
    pub fn new() -> (r: Self)
        ensures
            r.size == 0,
    {
        Allocator { size: 0, marker: PhantomData }
    }

    /// Counts a new node and hands it back.
    pub fn allocate(&mut self, obj: T) -> (r: T)
        requires
            old(self).size < usize::MAX,
        ensures
            final(self).size == old(self).size + 1,
            r == obj,
    {
        self.size = self.size + 1;
        obj
    }

    /// Stops counting a node and hands it back.
    pub fn free(&mut self, obj: T) -> (r: T)
        requires
            old(self).size > 0,
        ensures
            final(self).size == old(self).size - 1,
            r == obj,
    {
        self.size = self.size - 1;
        obj
    }
}

} // verus!
