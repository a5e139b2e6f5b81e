//! The backing sequence that the arena allocates its slots from: a bounded
//! buffer that is filled from the front and addressed by position.
//!
//! [`Array`] keeps its items in an inline buffer of fixed size and refuses
//! what does not fit. [`AllocVec`] keeps them on the heap and grows.

use vstd::prelude::*;

pub mod impls;

verus! {

/// A contiguous buffer of at most `capacity` items, addressed by position.
///
/// A buffer that is not growable takes an item exactly while it holds fewer
/// than `capacity`; a growable one takes every item and raises its capacity
/// where it must. The capacity never goes down.
pub trait Vector<T>: Sized {
    /// What a failed `push` or `reserve` reports.
    type Error: core::fmt::Debug;

    /// The items held, in index order.
    spec fn view(&self) -> Seq<T>;

    /// The number of items that fit without a reservation.
    spec fn spec_capacity(&self) -> usize;

    /// Whether the buffer takes more room when it is asked for.
    spec fn growable(&self) -> bool;

    /// The representation invariant.
    spec fn wf(&self) -> bool;

    /// The number of items that fit without a reservation.
    fn capacity(&self) -> (c: usize)
        requires
            self.wf(),
        ensures
            c == self.spec_capacity(),
    ;

    /// The number of items held.
    fn len(&self) -> (n: usize)
        requires
            self.wf(),
        ensures
            n == self.view().len(),
            n <= self.spec_capacity(),
    ;

    /// Whether no item is held.
    fn is_empty(&self) -> (r: bool)
        requires
            self.wf(),
        ensures
            r == (self.view().len() == 0),
    ;

    /// Appends `item`. A refused item changes nothing.
    fn push(&mut self, item: T) -> (r: Result<(), Self::Error>)
        requires
            old(self).wf(),
        ensures
            final(self).wf(),
            final(self).growable() == old(self).growable(),
            r is Ok <==> (old(self).growable() || old(self).view().len() < old(
                self,
            ).spec_capacity()),
            r is Ok ==> final(self).view() == old(self).view().push(item),
            r is Err ==> final(self).view() == old(self).view(),
            final(self).spec_capacity() >= old(self).spec_capacity(),
            r is Err || old(self).view().len() < old(self).spec_capacity()
                ==> final(self).spec_capacity() == old(self).spec_capacity(),
    ;

    /// Makes sure that `additional` more items fit. The items stay as they
    /// are; a refused reservation changes nothing.
    fn reserve(&mut self, additional: usize) -> (r: Result<(), Self::Error>)
        requires
            old(self).wf(),
            old(self).growable() ==> old(self).view().len() + additional <= usize::MAX,
        ensures
            final(self).wf(),
            final(self).growable() == old(self).growable(),
            final(self).view() == old(self).view(),
            r is Ok <==> (old(self).growable() || old(self).view().len() + additional <= old(
                self,
            ).spec_capacity()),
            r is Ok ==> final(self).spec_capacity() >= old(self).view().len() + additional,
            final(self).spec_capacity() >= old(self).spec_capacity(),
            old(self).view().len() + additional <= old(self).spec_capacity()
                ==> final(self).spec_capacity() == old(self).spec_capacity(),
            r is Err ==> final(self).spec_capacity() == old(self).spec_capacity(),
    ;

    /// Drops every item and keeps the capacity.
    fn clear(&mut self)
        requires
            old(self).wf(),
        ensures
            final(self).wf(),
            final(self).growable() == old(self).growable(),
            final(self).view() == Seq::<T>::empty(),
            final(self).spec_capacity() == old(self).spec_capacity(),
    ;

    /// The item at position `i`.
    fn get(&self, i: usize) -> (r: Option<&T>)
        requires
            self.wf(),
        ensures
            r == (if i < self.view().len() {
                Some(&self.view()[i as int])
            } else {
                None
            }),
    ;

    /// Exclusive access to the item at position `i`.
    fn get_mut(&mut self, i: usize) -> (r: Option<&mut T>)
        requires
            old(self).wf(),
        ensures
            final(self).wf(),
            final(self).spec_capacity() == old(self).spec_capacity(),
            final(self).growable() == old(self).growable(),
            match r {
                Some(item) => i < old(self).view().len() && *item == old(self).view()[i as int]
                    && final(self).view() == old(self).view().update(i as int, *final(item)),
                None => i >= old(self).view().len() && final(self).view() == old(self).view(),
            },
    ;
}

} // verus!
