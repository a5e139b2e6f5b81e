//! A key map over the ordered tree map of the standard library.

use crate::map::KeyMap;
use std::collections::BTreeMap;
use vstd::prelude::*;

verus! {

/// A [`KeyMap`] over the ordered tree map of the standard library.
pub struct AllocBTreeMap<K, V> {
    btree_map: BTreeMap<K, V>,
}

impl<K, V> AllocBTreeMap<K, V> {
    /// The pairs held.
    pub closed spec fn pairs(&self) -> Map<K, V> {
        self.btree_map@
    }

    /// A map over `btree_map`, with the pairs that it holds.
    pub fn with_btree_map(btree_map: BTreeMap<K, V>) -> (m: Self)
        ensures
            m.pairs() == btree_map@,
    {
        Self { btree_map }
    }

    /// An empty map.
    pub fn new() -> (m: Self)
        ensures
            m.pairs() == Map::<K, V>::empty(),
    {
        Self { btree_map: BTreeMap::new() }
    }
}

impl<K: Ord, V> AllocBTreeMap<K, V> {
    /// Whether the ordering of the keys is lawful, which is all that a
    /// tree map needs to be well-formed.
    pub open spec fn keys_lawful() -> bool {
        vstd::laws_cmp::obeys_cmp::<K>()
    }
}

impl<K, V> Default for AllocBTreeMap<K, V> {
    fn default() -> (m: Self)
        ensures
            m.pairs() == Map::<K, V>::empty(),
    {
        Self::new()
    }
}

/// `BTreeMap::get_mut` of the standard library, trusted: where the keys'
/// ordering is lawful, it gives exclusive access to the value stored under
/// `key`, so that writing through the reference replaces that one value;
/// a key that is not held yields `None` and leaves the map alone.
#[verifier::external_body]
fn btree_get_mut<'a, K: Ord, V>(map: &'a mut BTreeMap<K, V>, key: &K) -> (r: Option<&'a mut V>)
    ensures
        vstd::laws_cmp::obeys_cmp::<K>() ==> match r {
            Some(value) => {
                &&& old(map)@.contains_key(*key)
                &&& *value == old(map)@[*key]
                &&& final(map)@ == old(map)@.insert(*key, *final(value))
            },
            None => !old(map)@.contains_key(*key) && final(map)@ == old(map)@,
        },
{
    map.get_mut(key)
}

impl<K: Ord, V> KeyMap<K, V> for AllocBTreeMap<K, V> {
    type Error = core::convert::Infallible;

    open spec fn view(&self) -> Map<K, V> {
        self.pairs()
    }

    open spec fn spec_capacity(&self) -> Option<usize> {
        None
    }

    open spec fn infallible() -> bool {
        true
    }

    /// The tree map keeps its promises where the keys' ordering is lawful.
    open spec fn wf(&self) -> bool {
        Self::keys_lawful()
    }

    fn insert(&mut self, key: K, value: V) -> (r: Result<Option<V>, Self::Error>) {
        Ok(self.btree_map.insert(key, value))
    }

    fn get(&self, key: &K) -> (r: Option<&V>) {
        self.btree_map.get(key)
    }

    fn get_mut(&mut self, key: &K) -> (r: Option<&mut V>) {
        btree_get_mut(&mut self.btree_map, key)
    }

    fn remove(&mut self, key: &K) -> (r: Option<V>) {
        self.btree_map.remove(key)
    }

    fn clear(&mut self) -> (r: Result<(), Self::Error>) {
        self.btree_map.clear();
        Ok(())
    }

    fn is_empty(&self) -> (r: bool) {
        self.btree_map.is_empty()
    }

    fn capacity(&self) -> (r: Option<usize>) {
        None
    }

    fn len(&self) -> (r: usize) {
        self.btree_map.len()
    }
}

} // verus!
