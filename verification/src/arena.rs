//! Append-only store that owns values and hands out stable integer handles.

use vstd::prelude::*;

verus! {

/// A growable store of values addressed by integer handles.
///
/// `insert` appends a value and returns its position as the handle; nothing
/// is ever removed or moved, so a handle stays valid for the arena's whole
/// lifetime and two distinct handles never alias one slot.  Access with a
/// handle that did not come from this arena's own `insert` is a caller
/// error, ruled out by the access preconditions rather than reported.
pub struct Arena<T> {
    items: Vec<T>,
}

impl<T> View for Arena<T> {
    type V = Seq<T>;

    closed spec fn view(&self) -> Seq<T> {
        self.items@
    }
}

impl<T> Arena<T> {
    /// Creates an empty arena.
    pub fn new() -> (arena: Arena<T>)
        ensures
            arena@ == Seq::<T>::empty(),
    {
        Arena { items: Vec::new() }
    }

    /// Number of stored values; exactly the handles below it are valid.
    pub fn len(&self) -> (n: usize)
        ensures
            n == self@.len(),
    {
        self.items.len()
    }

    /// Stores `value`, returning the fresh handle under which it now lives.
    pub fn insert(&mut self, value: T) -> (handle: usize)
        ensures
            handle == old(self)@.len(),
            final(self)@ == old(self)@.push(value),
    {
        let handle = self.items.len();
        self.items.push(value);
        handle
    }

    /// Shared access to the value stored under `handle`.
    pub fn get(&self, handle: usize) -> (value: &T)
        requires
            handle < self@.len(),
        ensures
            *value == self@[handle as int],
    {
        &self.items[handle]
    }

    /// Exclusive access to the value stored under `handle`.
    pub fn get_mut(&mut self, handle: usize) -> (value: &mut T)
        requires
            handle < old(self)@.len(),
        ensures
            *value == old(self)@[handle as int],
            final(self)@ == old(self)@.update(handle as int, *final(value)),
    {
        &mut self.items[handle]
    }
}

} // verus!
