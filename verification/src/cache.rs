//! Bounded key/value stores that evict an entry to make room for a new one.

use vstd::prelude::*;

pub mod lru_cache;

verus! {

/// What an insertion pushed out of a cache.
#[derive(Debug, PartialEq, Eq)]
pub enum Eviction<K, V> {
    /// The cache was full: this pair left to make room for a new key.
    Block { key: K, value: V },
    /// The key was present: this value was replaced.
    Value(V),
    /// Nothing left the cache.
    Nothing,
}

/// The outcome of looking a key up.
#[derive(Debug, PartialEq, Eq)]
pub enum Lookup<V> {
    /// The key was present, with this value.
    Hit(V),
    /// The key was absent.
    Miss,
}

/// A store of at most `capacity` key/value pairs that picks by a rule of
/// its own which pair leaves when room is needed.
///
/// Whatever the rule, the store behaves as a finite map: a key that was
/// stored is found with its value until it is removed, evicted or
/// replaced, and an operation that fails adds nothing.
pub trait Cache<K, V>: Sized {
    /// What a failed operation reports.
    type Error;

    /// The representation invariant.
    spec fn wf(&self) -> bool;

    /// The pairs held, by key.
    spec fn entries(&self) -> Map<K, V>;

    /// The number of pairs held.
    spec fn spec_len(&self) -> usize;

    /// The number of pairs that may be held.
    spec fn spec_capacity(&self) -> usize;

    /// Whether the counters stay within the machine's range when room for
    /// `additional` more pairs is reserved.
    spec fn reserve_fits(&self, additional: usize) -> bool;

    /// A well-formed store holds finitely many pairs, `len` of them, and
    /// no more than its capacity.
    proof fn lemma_len_counts_entries(&self)
        requires
            self.wf(),
        ensures
            self.entries().dom().finite(),
            self.spec_len() == self.entries().len(),
            self.spec_len() <= self.spec_capacity(),
    ;

    /// Stores `value` under `key`. A key that is held gives its former
    /// value back; a new key evicts a pair exactly where the store is full.
    fn insert(&mut self, key: K, value: V) -> (r: Result<Eviction<K, V>, Self::Error>)
        requires
            old(self).wf(),
        ensures
            final(self).wf(),
            final(self).spec_capacity() == old(self).spec_capacity(),
            match r {
                Ok(Eviction::Value(previous)) => {
                    &&& old(self).entries().contains_key(key)
                    &&& previous == old(self).entries()[key]
                    &&& final(self).entries() == old(self).entries().insert(key, value)
                },
                Ok(Eviction::Block { key: evicted, value: lost }) => {
                    &&& !old(self).entries().contains_key(key)
                    &&& old(self).spec_len() == old(self).spec_capacity()
                    &&& old(self).entries().contains_key(evicted)
                    &&& lost == old(self).entries()[evicted]
                    &&& final(self).entries() == old(self).entries().remove(evicted).insert(
                        key,
                        value,
                    )
                },
                Ok(Eviction::Nothing) => {
                    &&& !old(self).entries().contains_key(key)
                    &&& old(self).spec_len() < old(self).spec_capacity()
                    &&& final(self).entries() == old(self).entries().insert(key, value)
                },
                Err(_) => final(self).entries().submap_of(old(self).entries()),
            },
    ;

    /// Takes `key` and its value out.
    fn remove(&mut self, key: &K) -> (r: Result<Lookup<V>, Self::Error>)
        requires
            old(self).wf(),
        ensures
            final(self).wf(),
            final(self).spec_capacity() == old(self).spec_capacity(),
            match r {
                Ok(Lookup::Hit(value)) => {
                    &&& old(self).entries().contains_key(*key)
                    &&& value == old(self).entries()[*key]
                    &&& final(self).entries() == old(self).entries().remove(*key)
                },
                Ok(Lookup::Miss) => {
                    &&& !old(self).entries().contains_key(*key)
                    &&& final(self).entries() == old(self).entries()
                },
                Err(_) => final(self).entries().submap_of(old(self).entries()),
            },
    ;

    /// Lowers the capacity to `new_capacity`, evicting what no longer fits.
    /// A `new_capacity` that is no lower changes nothing.
    fn shrink(&mut self, new_capacity: usize) -> (r: Result<(), Self::Error>)
        requires
            old(self).wf(),
        ensures
            final(self).wf(),
            final(self).entries().submap_of(old(self).entries()),
            r is Ok ==> final(self).spec_capacity() == (if new_capacity < old(
                self,
            ).spec_capacity() {
                new_capacity
            } else {
                old(self).spec_capacity()
            }),
            r is Ok && new_capacity >= old(self).spec_len() ==> final(self).entries() == old(
                self,
            ).entries(),
    ;

    /// Raises the capacity by `additional` and keeps every pair.
    fn reserve(&mut self, additional: usize) -> (r: Result<(), Self::Error>)
        requires
            old(self).wf(),
            old(self).reserve_fits(additional),
        ensures
            final(self).wf(),
            final(self).entries() == old(self).entries(),
            final(self).spec_capacity() == (if r is Ok {
                old(self).spec_capacity() + additional
            } else {
                old(self).spec_capacity() as int
            }),
    ;

    /// Looks `key` up; a hit counts as a use of the pair. The pairs stay
    /// as they are.
    fn query(&mut self, key: &K) -> (r: Result<Lookup<&V>, Self::Error>)
        requires
            old(self).wf(),
        ensures
            final(self).wf(),
            final(self).spec_capacity() == old(self).spec_capacity(),
            match r {
                Ok(Lookup::Hit(value)) => {
                    &&& old(self).entries().contains_key(*key)
                    &&& *value == old(self).entries()[*key]
                    &&& final(self).entries() == old(self).entries()
                },
                Ok(Lookup::Miss) => {
                    &&& !old(self).entries().contains_key(*key)
                    &&& final(self).entries() == old(self).entries()
                },
                Err(_) => final(self).entries().submap_of(old(self).entries()),
            },
    ;

    /// The number of pairs that may be held.
    fn capacity(&self) -> (r: usize)
        requires
            self.wf(),
        ensures
            r == self.spec_capacity(),
    ;

    /// The number of pairs held.
    fn len(&self) -> (r: usize)
        requires
            self.wf(),
        ensures
            r == self.spec_len(),
    ;

    /// Whether as many pairs are held as may be.
    fn is_maxed(&self) -> (r: bool)
        requires
            self.wf(),
        ensures
            r == (self.spec_len() == self.spec_capacity()),
    {
        self.len() == self.capacity()
    }

    /// Whether no pair is held.
    fn is_empty(&self) -> (r: bool)
        requires
            self.wf(),
        ensures
            r == (self.spec_len() == 0),
    {
        self.len() == 0
    }

    /// Takes every pair out.
    fn clear(&mut self) -> (r: Result<(), Self::Error>)
        requires
            old(self).wf(),
        ensures
            final(self).wf(),
            final(self).spec_capacity() == old(self).spec_capacity(),
            match r {
                Ok(()) => final(self).entries() == Map::<K, V>::empty(),
                Err(_) => final(self).entries().submap_of(old(self).entries()),
            },
    ;
}

} // verus!
