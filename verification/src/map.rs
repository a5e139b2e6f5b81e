//! The key index that a cache looks its entries up in.

use vstd::prelude::*;

pub mod impls;

verus! {

/// A finite mapping from keys to values.
///
/// An operation that reports an error leaves the mapping as it was.
pub trait KeyMap<K, V>: Sized {
    /// What a failed `insert` or `clear` reports.
    type Error: core::fmt::Debug;

    /// The pairs held.
    spec fn view(&self) -> Map<K, V>;

    /// The number of pairs that fit, where there is a limit.
    spec fn spec_capacity(&self) -> Option<usize>;

    /// The representation invariant.
    spec fn wf(&self) -> bool;

    /// Whether maps of this type never refuse an `insert` or a `clear`.
    spec fn infallible() -> bool;

    /// Maps `key` to `value` and returns what it was mapped to before.
    fn insert(&mut self, key: K, value: V) -> (r: Result<Option<V>, Self::Error>)
        requires
            old(self).wf(),
        ensures
            final(self).wf(),
            final(self).spec_capacity() == old(self).spec_capacity(),
            Self::infallible() ==> r is Ok,
            match r {
                Ok(previous) => {
                    &&& final(self).view() == old(self).view().insert(key, value)
                    &&& previous == (if old(self).view().contains_key(key) {
                        Some(old(self).view()[key])
                    } else {
                        None
                    })
                },
                Err(_) => final(self).view() == old(self).view(),
            },
    ;

    /// The value that `key` is mapped to.
    fn get(&self, key: &K) -> (r: Option<&V>)
        requires
            self.wf(),
        ensures
            r == (if self.view().contains_key(*key) {
                Some(&self.view()[*key])
            } else {
                None
            }),
    ;

    /// Exclusive access to the value that `key` is mapped to.
    fn get_mut(&mut self, key: &K) -> (r: Option<&mut V>)
        requires
            old(self).wf(),
        ensures
            final(self).wf(),
            final(self).spec_capacity() == old(self).spec_capacity(),
            match r {
                Some(value) => {
                    &&& old(self).view().contains_key(*key)
                    &&& *value == old(self).view()[*key]
                    &&& final(self).view() == old(self).view().insert(*key, *final(value))
                },
                None => !old(self).view().contains_key(*key) && final(self).view() == old(
                    self,
                ).view(),
            },
    ;

    /// Drops `key` and returns what it was mapped to.
    fn remove(&mut self, key: &K) -> (r: Option<V>)
        requires
            old(self).wf(),
        ensures
            final(self).wf(),
            final(self).spec_capacity() == old(self).spec_capacity(),
            final(self).view() == old(self).view().remove(*key),
            r == (if old(self).view().contains_key(*key) {
                Some(old(self).view()[*key])
            } else {
                None
            }),
    ;

    /// Drops every pair.
    fn clear(&mut self) -> (r: Result<(), Self::Error>)
        requires
            old(self).wf(),
        ensures
            final(self).wf(),
            final(self).spec_capacity() == old(self).spec_capacity(),
            Self::infallible() ==> r is Ok,
            match r {
                Ok(()) => final(self).view() == Map::<K, V>::empty(),
                Err(_) => final(self).view() == old(self).view(),
            },
    ;

    /// Whether no pair is held.
    fn is_empty(&self) -> (r: bool)
        requires
            self.wf(),
        ensures
            r == self.view().dom().is_empty(),
    ;

    /// The number of pairs that fit, where there is a limit.
    fn capacity(&self) -> (r: Option<usize>)
        requires
            self.wf(),
        ensures
            r == self.spec_capacity(),
    ;

    /// The number of pairs held.
    fn len(&self) -> (r: usize)
        requires
            self.wf(),
        ensures
            r == self.view().len(),
    ;
}

} // verus!
