//! A backing sequence in an inline buffer of fixed size.

use crate::vector::Vector;
use vstd::prelude::*;

verus! {

/// Why an [`Array`] refused an operation.
#[derive(PartialEq, Eq, Debug)]
pub enum ArrayError {
    /// The buffer has no room for what was asked.
    OutOfMemory,
}

/// A [`Vector`] of capacity `N` in an inline buffer. The first `len`
/// places of the buffer hold the items.
pub struct Array<T, const N: usize> {
    buffer: [T; N],
    len: usize,
}

impl<T, const N: usize> Array<T, N> {
    /// An empty vector that stores its items in `buffer`. What the buffer
    /// holds does not count as an item.
    pub fn with_buffer(buffer: [T; N]) -> (a: Self)
        ensures
            a.wf(),
            a@ == Seq::<T>::empty(),
    {
        let a = Self { buffer, len: 0 };
        assert(a@ =~= Seq::<T>::empty());
        a
    }
}

impl<T: Copy + Default, const N: usize> Array<T, N> {
    /// An empty vector.
    pub fn new() -> (a: Self)
        ensures
            a.wf(),
            a@ == Seq::<T>::empty(),
    {
        let filler: T = Default::default();
        Self::with_buffer([filler; N])
    }
}

impl<T: Copy + Default, const N: usize> Default for Array<T, N> {
    fn default() -> (a: Self)
        ensures
            a.wf(),
            a@ == Seq::<T>::empty(),
    {
        Self::new()
    }
}

impl<T, const N: usize> Vector<T> for Array<T, N> {
    type Error = ArrayError;

    closed spec fn view(&self) -> Seq<T> {
        self.buffer@.subrange(0, self.len as int)
    }

    open spec fn spec_capacity(&self) -> usize {
        N
    }

    open spec fn growable(&self) -> bool {
        false
    }

    closed spec fn wf(&self) -> bool {
        self.len <= N
    }

    fn capacity(&self) -> (c: usize) {
        N
    }

    fn len(&self) -> (n: usize) {
        self.len
    }

    fn push(&mut self, item: T) -> (r: Result<(), Self::Error>) {
        if self.len == N {
            Err(ArrayError::OutOfMemory)
        } else {
            self.buffer[self.len] = item;
            self.len += 1;
            assert(self.view() =~= old(self).view().push(item));
            Ok(())
        }
    }

    fn reserve(&mut self, additional: usize) -> (r: Result<(), Self::Error>) {
        let remaining: usize = N - self.len;
        if additional > remaining {
            Err(ArrayError::OutOfMemory)
        } else {
            Ok(())
        }
    }

    fn clear(&mut self) {
        self.len = 0;
    }

    fn is_empty(&self) -> (r: bool) {
        self.len == 0
    }

    fn get(&self, i: usize) -> (r: Option<&T>) {
        if i < self.len {
            Some(&self.buffer[i])
        } else {
            None
        }
    }

    fn get_mut(&mut self, i: usize) -> (r: Option<&mut T>) {
        if i < self.len {
            Some(&mut self.buffer[i])
        } else {
            None
        }
    }
}

} // verus!
