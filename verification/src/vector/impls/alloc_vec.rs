//! A backing sequence on the heap.

use crate::vector::Vector;
use vstd::prelude::*;

verus! {

/// A [`Vector`] on the heap.
///
/// Its capacity is the room that was asked for: what `with_capacity` was
/// given, raised by `reserve` to the length plus the reservation, and by a
/// `push` onto a full vector to the new length.
pub struct AllocVec<T> {
    vec: Vec<T>,
    capacity: usize,
}

impl<T> AllocVec<T> {
    /// An empty vector of capacity 0.
    pub fn new() -> (v: Self)
        ensures
            v.wf(),
            v@ == Seq::<T>::empty(),
            v.spec_capacity() == 0,
    {
        Self { vec: Vec::new(), capacity: 0 }
    }

    /// An empty vector of the given capacity.
    pub fn with_capacity(capacity: usize) -> (v: Self)
        ensures
            v.wf(),
            v@ == Seq::<T>::empty(),
            v.spec_capacity() == capacity,
    {
        Self { vec: Vec::with_capacity(capacity), capacity }
    }
}

impl<T> Default for AllocVec<T> {
    fn default() -> (v: Self)
        ensures
            v.wf(),
            v@ == Seq::<T>::empty(),
            v.spec_capacity() == 0,
    {
        Self::new()
    }
}

impl<T> Vector<T> for AllocVec<T> {
    type Error = core::convert::Infallible;

    closed spec fn view(&self) -> Seq<T> {
        self.vec@
    }

    closed spec fn spec_capacity(&self) -> usize {
        self.capacity
    }

    open spec fn growable(&self) -> bool {
        true
    }

    closed spec fn wf(&self) -> bool {
        self.vec@.len() <= self.capacity
    }

    fn capacity(&self) -> (c: usize) {
        self.capacity
    }

    fn len(&self) -> (n: usize) {
        self.vec.len()
    }

    /// Appends `item`; a full vector grows by one place for it.
    fn push(&mut self, item: T) -> (r: Result<(), Self::Error>)
        ensures
            final(self).spec_capacity() == (if old(self)@.len() < old(self).spec_capacity() {
                old(self).spec_capacity() as nat
            } else {
                old(self)@.len() + 1
            }),
    {
        self.vec.push(item);
        let n: usize = self.vec.len();
        if n > self.capacity {
            self.capacity = n;
        }
        Ok(())
    }

    /// Makes room for `additional` more items, growing to exactly that
    /// where there is less.
    fn reserve(&mut self, additional: usize) -> (r: Result<(), Self::Error>)
        ensures
            final(self).spec_capacity() == (if old(self)@.len() + additional <= old(
                self,
            ).spec_capacity() {
                old(self).spec_capacity() as int
            } else {
                old(self)@.len() + additional
            }),
    {
        self.vec.reserve(additional);
        let wanted: usize = self.vec.len() + additional;
        if wanted > self.capacity {
            self.capacity = wanted;
        }
        Ok(())
    }

    fn clear(&mut self) {
        self.vec.clear();
    }

    fn is_empty(&self) -> (r: bool) {
        self.vec.is_empty()
    }

    fn get(&self, i: usize) -> (r: Option<&T>) {
        if i < self.vec.len() {
            Some(&self.vec[i])
        } else {
            None
        }
    }

    fn get_mut(&mut self, i: usize) -> (r: Option<&mut T>) {
        if i < self.vec.len() {
            Some(&mut self.vec[i])
        } else {
            None
        }
    }
}

} // verus!
