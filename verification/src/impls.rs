//! Ready-made combinations of a backing vector with the arena, the list and
//! the cache.

use crate::arena::{Arena, Entry};
use crate::cache::lru_cache::{Block, LRUCache};
use crate::collections::list::{Link, LinkedList, Node};
use crate::map::impls::alloc_btree_map::AllocBTreeMap;
use crate::map::KeyMap;
use crate::vector::impls::alloc_vec::AllocVec;
use crate::vector::impls::array::Array;
use crate::vector::Vector;
use vstd::prelude::*;

verus! {

/// An arena of `N` slots in an inline buffer.
pub fn array_backed_arena<T, const N: usize>() -> (arena: Arena<Array<Entry<T>, N>, T>) where
    T: Copy + Default,

    ensures
        arena.wf(),
        arena.is_fresh(N as int),
        arena.backing_capacity() == N,
        !arena.growable(),
{
    Arena::with_vector(Array::<Entry<T>, N>::new())
}

/// A list of `N` places in an inline buffer.
pub fn array_backed_list<T, const N: usize>() -> (list: LinkedList<Array<Entry<Node<T>>, N>, T>) where
    T: Copy + Default,

    ensures
        list.wf(),
        list.links() == Seq::<Link>::empty(),
        list.arena().is_fresh(N as int),
        list.arena().backing_capacity() == N,
        !list.arena().growable(),
{
    LinkedList::with_backing_vector(Array::<Entry<Node<T>>, N>::new())
}

/// The heap vector that backs a list of `T`.
pub type AllocLinkedListArenaVec<T> = AllocVec<Entry<Node<T>>>;

/// A list of `T` on the heap.
pub type AllocLinkedList<T> = LinkedList<AllocLinkedListArenaVec<T>, T>;

/// A cache from `K` to `T` on the heap, indexed by an ordered tree map.
pub type AllocLinkedListAllocBTreeLRUCache<K, T> = LRUCache<
    AllocLinkedListArenaVec<Block<K, T>>,
    K,
    T,
    AllocBTreeMap<K, Link>,
>;

/// A cache from `K` to `T` that lives on the heap and finds its keys in an
/// ordered tree map.
pub struct AllocLinkedListBTreeLRUCache<K, T> {
    cache: AllocLinkedListAllocBTreeLRUCache<K, T>,
}

impl<K: Ord, T> AllocLinkedListBTreeLRUCache<K, T> {
    /// The cache inside.
    pub closed spec fn inner(&self) -> AllocLinkedListAllocBTreeLRUCache<K, T> {
        self.cache
    }

    /// An empty cache for `capacity` pairs.
    pub fn with_capacity(capacity: usize) -> (made: Self)
        requires
            AllocBTreeMap::<K, Link>::keys_lawful(),
        ensures
            made.inner().inv(),
            made.inner()@ == Seq::<Block<K, T>>::empty(),
            made.inner().capacity_limit() == capacity,
            made.inner().slots() == capacity,
            made.inner().list().arena().growable(),
    {
        Self {
            cache: LRUCache::with_backing_vector_and_map(
                AllocVec::with_capacity(capacity),
                AllocBTreeMap::new(),
            ),
        }
    }

    /// The cache inside, to read.
    pub fn cache(&self) -> (r: &AllocLinkedListAllocBTreeLRUCache<K, T>)
        ensures
            *r == self.inner(),
    {
        &self.cache
    }

    /// The cache inside, to change.
    pub fn cache_mut(&mut self) -> (r: &mut AllocLinkedListAllocBTreeLRUCache<K, T>)
        ensures
            *r == old(self).inner(),
            *final(r) == final(self).inner(),
    {
        &mut self.cache
    }
}

} // verus!
