//! A bump arena: slots are handed out one after another and never taken back.

use vstd::prelude::*;

verus! {

/// An arena of `T` with a ceiling on the number of slots.
///
/// A slot is named by its index, which stays valid for the arena's lifetime.
/// The view is the sequence of the values allocated so far, in allocation order.
pub struct Allocator<T> {
    buf: Vec<T>,
    capacity: usize,
}

impl<T> View for Allocator<T> {
    type V = Seq<T>;

    /// The values allocated so far, in the order of their slots.
    closed spec fn view(&self) -> Seq<T> {
        self.buf@
    }
}

impl<T> Allocator<T> {
    /// The ceiling: `allocate` hands out no more slots than this.
    pub closed spec fn spec_capacity(&self) -> nat {
        self.capacity as nat
    }

    /// An empty arena with `size` slots reserved.
    pub fn new(size: usize) -> (a: Self)
        ensures
            a@ == Seq::<T>::empty(),
            a.spec_capacity() == size,
    {
        Allocator { buf: Vec::with_capacity(size), capacity: size }
    }

    /// The ceiling given at construction, or the number of slots in use where
    /// `allocate_or_grow` has gone past it.
    pub fn capacity(&self) -> (c: usize)
        ensures
            c == self.spec_capacity(),
    {
        self.capacity
    }

    /// The number of slots handed out so far.
    pub fn len(&self) -> (n: usize)
        ensures
            n == self@.len(),
    {
        self.buf.len()
    }

    /// Claims the next free slot, writes `obj` into it and returns its index.
    /// The arena must not be full.
    pub fn allocate(&mut self, obj: T) -> (index: usize)
        requires
            old(self)@.len() < old(self).spec_capacity(),
        ensures
            index == old(self)@.len(),
            final(self)@ == old(self)@.push(obj),
            final(self)@.len() <= usize::MAX,
            final(self).spec_capacity() == old(self).spec_capacity(),
    {
        self.buf.push(obj);
        self.buf.len() - 1
    }

    /// As `allocate`, but a full arena grows by one slot instead of refusing.
    pub fn allocate_or_grow(&mut self, obj: T) -> (index: usize)
        ensures
            index == old(self)@.len(),
            final(self)@ == old(self)@.push(obj),
            final(self)@.len() <= usize::MAX,
            final(self).spec_capacity() == if old(self)@.len() < old(self).spec_capacity() {
                old(self).spec_capacity()
            } else {
                final(self)@.len()
            },
    {
        self.buf.push(obj);
        let n: usize = self.buf.len();
        if n > self.capacity {
            self.capacity = n;
        }
        n - 1
    }

    /// The value in slot `index`.
    pub fn get(&self, index: usize) -> (value: &T)
        requires
            index < self@.len(),
        ensures
            *value == self@[index as int],
    {
        &self.buf[index]
    }

    /// The slot `index`, for writing in place.
    pub fn get_mut(&mut self, index: usize) -> (value: &mut T)
        requires
            index < old(self)@.len(),
        ensures
            *value == old(self)@[index as int],
            final(self)@ == old(self)@.update(index as int, *final(value)),
            final(self).spec_capacity() == old(self).spec_capacity(),
    {
        &mut self.buf[index]
    }
}

} // verus!
