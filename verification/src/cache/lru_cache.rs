//! A cache that evicts the pair that was used least recently.
//!
//! The pairs stand in a [`LinkedList`] in the order of their last use, the
//! least recent in front, and a [`KeyMap`] leads from each key to the link
//! of its pair. An insert and a hit both count as a use.

use crate::arena::{ArenaError, Entry};
use crate::cache::{Cache, Eviction, Lookup};
use crate::collections::list::{Link, LinkedList, ListError, Node};
use crate::map::KeyMap;
use crate::vector::Vector;
use vstd::prelude::*;

verus! {

/// A key with its value.
#[derive(Clone, Copy)]
pub struct Block<K, T> {
    pub key: K,
    pub value: T,
}

/// The arena slot type of a cache from `K` to `T`.
pub type LRUCacheBlockArenaEntry<K, T> = Entry<Node<Block<K, T>>>;

/// Why an [`LRUCache`] operation failed.
#[derive(Debug)]
pub enum LRUCacheError<VE, ME> {
    /// The list below refused the operation.
    ListError(ListError<VE>),
    /// A pair had to be evicted and the list held none.
    ListUnderflow,
    /// The key map named a link that the list does not hold.
    MapListInconsistent,
    /// The key map refused the operation.
    MapError(ME),
}

/// `refs` leads from the key of each block to the link at the block's
/// position, and from nothing else.
pub open spec fn indexed<K, T>(blocks: Seq<Block<K, T>>, links: Seq<Link>, refs: Map<K, Link>) -> bool {
    &&& blocks.len() == links.len()
    &&& links.no_duplicates()
    &&& refs.dom().finite()
    &&& refs.len() == blocks.len()
    &&& forall|i: int|
        0 <= i < blocks.len() ==> refs.contains_key((#[trigger] blocks[i]).key) && refs[blocks[i].key]
            == links[i]
    &&& forall|k: K| #[trigger]
        refs.contains_key(k) ==> links.contains(refs[k]) && blocks[links.index_of(refs[k])].key == k
}

/// Whether some block holds `key`.
pub open spec fn holds_key<K, T>(blocks: Seq<Block<K, T>>, key: K) -> bool {
    exists|i: int| 0 <= i < blocks.len() && (#[trigger] blocks[i]).key == key
}

/// The position of the block that holds `key`.
pub open spec fn key_position<K, T>(blocks: Seq<Block<K, T>>, key: K) -> int {
    choose|i: int| 0 <= i < blocks.len() && (#[trigger] blocks[i]).key == key
}

/// Under an index no two blocks hold the same key, and a key is held
/// exactly if the index knows it, at the position of its link.
pub proof fn lemma_indexed_key<K, T>(
    blocks: Seq<Block<K, T>>,
    links: Seq<Link>,
    refs: Map<K, Link>,
    key: K,
)
    requires
        indexed(blocks, links, refs),
    ensures
        holds_key(blocks, key) <==> refs.contains_key(key),
        refs.contains_key(key) ==> {
            &&& links.contains(refs[key])
            &&& key_position(blocks, key) == links.index_of(refs[key])
            &&& 0 <= key_position(blocks, key) < blocks.len()
            &&& blocks[key_position(blocks, key)].key == key
        },
        forall|i: int| 0 <= i < blocks.len() && (#[trigger] blocks[i]).key == key ==> i
            == key_position(blocks, key),
{
    if refs.contains_key(key) {
        let p = links.index_of(refs[key]);
        assert(blocks[p].key == key);
    }
    assert forall|i: int| 0 <= i < blocks.len() && (#[trigger] blocks[i]).key == key implies i
        == key_position(blocks, key) by {
        let q = key_position(blocks, key);
        assert(links[i] == refs[key]);
        assert(blocks[q].key == key);
        assert(links[q] == refs[key]);
    }
    if refs.contains_key(key) {
        let p = links.index_of(refs[key]);
        assert(p == key_position(blocks, key));
    }
}

/// Moving the pair at `p` to the back keeps the index.
pub proof fn lemma_indexed_promote<K, T>(
    blocks: Seq<Block<K, T>>,
    links: Seq<Link>,
    refs: Map<K, Link>,
    p: int,
)
    requires
        indexed(blocks, links, refs),
        0 <= p < blocks.len(),
    ensures
        indexed(blocks.remove(p).push(blocks[p]), links.remove(p).push(links[p]), refs),
{
    let new_blocks = blocks.remove(p).push(blocks[p]);
    let new_links = links.remove(p).push(links[p]);
    let n = blocks.len() as int;
    let back = |i: int|
        if i == n - 1 {
            p
        } else if i < p {
            i
        } else {
            i + 1
        };
    assert forall|i: int| 0 <= i < n implies new_blocks[i] == blocks[back(i)] && new_links[i]
        == links[back(i)] by {}
    assert(new_links.no_duplicates()) by {
        assert forall|i: int, j: int| 0 <= i < n && 0 <= j < n && i != j implies new_links[i]
            != new_links[j] by {
            assert(new_links[i] == links[back(i)] && new_links[j] == links[back(j)]);
        }
    }
    assert forall|i: int| 0 <= i < new_blocks.len() implies refs.contains_key(
        (#[trigger] new_blocks[i]).key,
    ) && refs[new_blocks[i].key] == new_links[i] by {
        assert(new_blocks[i] == blocks[back(i)]);
    }
    assert forall|k: K| #[trigger] refs.contains_key(k) implies new_links.contains(refs[k])
        && new_blocks[new_links.index_of(refs[k])].key == k by {
        let q = links.index_of(refs[k]);
        let j = if q == p {
            n - 1
        } else if q < p {
            q
        } else {
            q - 1
        };
        assert(new_links[j] == refs[k]);
        let found = new_links.index_of(refs[k]);
        assert(new_links[found] == new_links[j]);
        assert(new_blocks[j] == blocks[q]);
    }
}

/// Taking the pair at `p` out of the list and its key out of the index
/// keeps the index.
pub proof fn lemma_indexed_remove<K, T>(
    blocks: Seq<Block<K, T>>,
    links: Seq<Link>,
    refs: Map<K, Link>,
    p: int,
)
    requires
        indexed(blocks, links, refs),
        0 <= p < blocks.len(),
    ensures
        indexed(blocks.remove(p), links.remove(p), refs.remove(blocks[p].key)),
{
    let new_blocks = blocks.remove(p);
    let new_links = links.remove(p);
    let new_refs = refs.remove(blocks[p].key);
    let n = blocks.len() as int;
    let back = |i: int|
        if i < p {
            i
        } else {
            i + 1
        };
    assert(new_links.no_duplicates()) by {
        assert forall|i: int, j: int|
            0 <= i < n - 1 && 0 <= j < n - 1 && i != j implies new_links[i] != new_links[j] by {
            assert(new_links[i] == links[back(i)] && new_links[j] == links[back(j)]);
        }
    }
    assert forall|i: int| 0 <= i < new_blocks.len() implies new_refs.contains_key(
        (#[trigger] new_blocks[i]).key,
    ) && new_refs[new_blocks[i].key] == new_links[i] by {
        assert(new_blocks[i] == blocks[back(i)]);
        assert(links[back(i)] != links[p]);
    }
    assert forall|k: K| #[trigger] new_refs.contains_key(k) implies new_links.contains(new_refs[k])
        && new_blocks[new_links.index_of(new_refs[k])].key == k by {
        assert(refs.contains_key(k));
        let q = links.index_of(refs[k]);
        assert(q != p);
        let j = if q < p {
            q
        } else {
            q - 1
        };
        assert(new_links[j] == refs[k]);
        let found = new_links.index_of(refs[k]);
        assert(new_links[found] == new_links[j]);
        assert(new_blocks[j] == blocks[q]);
    }
}

/// Putting a pair with a new key and a new link at the back keeps the
/// index.
pub proof fn lemma_indexed_push<K, T>(
    blocks: Seq<Block<K, T>>,
    links: Seq<Link>,
    refs: Map<K, Link>,
    block: Block<K, T>,
    link: Link,
)
    requires
        indexed(blocks, links, refs),
        !refs.contains_key(block.key),
        !links.contains(link),
    ensures
        indexed(blocks.push(block), links.push(link), refs.insert(block.key, link)),
{
    let new_blocks = blocks.push(block);
    let new_links = links.push(link);
    let new_refs = refs.insert(block.key, link);
    let n = blocks.len() as int;
    assert(new_links.no_duplicates()) by {
        assert forall|i: int, j: int| 0 <= i <= n && 0 <= j <= n && i != j implies new_links[i]
            != new_links[j] by {
            if i < n {
                assert(links.contains(links[i]));
            }
            if j < n {
                assert(links.contains(links[j]));
            }
        }
    }
    assert forall|i: int| 0 <= i < new_blocks.len() implies new_refs.contains_key(
        (#[trigger] new_blocks[i]).key,
    ) && new_refs[new_blocks[i].key] == new_links[i] by {
        if i < n {
            assert(new_blocks[i] == blocks[i]);
        }
    }
    assert forall|k: K| #[trigger] new_refs.contains_key(k) implies new_links.contains(new_refs[k])
        && new_blocks[new_links.index_of(new_refs[k])].key == k by {
        let j = if k == block.key {
            n
        } else {
            links.index_of(refs[k])
        };
        assert(new_links[j] == new_refs[k]);
        let found = new_links.index_of(new_refs[k]);
        assert(new_links[found] == new_links[j]);
    }
}

/// Replacing the value of the pair at `p` keeps the index.
pub proof fn lemma_indexed_update<K, T>(
    blocks: Seq<Block<K, T>>,
    links: Seq<Link>,
    refs: Map<K, Link>,
    p: int,
    value: T,
)
    requires
        indexed(blocks, links, refs),
        0 <= p < blocks.len(),
    ensures
        indexed(blocks.update(p, Block { key: blocks[p].key, value }), links, refs),
{
    let new_blocks = blocks.update(p, Block { key: blocks[p].key, value });
    assert forall|i: int| 0 <= i < new_blocks.len() implies refs.contains_key(
        (#[trigger] new_blocks[i]).key,
    ) && refs[new_blocks[i].key] == links[i] by {
        assert(new_blocks[i].key == blocks[i].key);
    }
    assert forall|k: K| #[trigger] refs.contains_key(k) implies links.contains(refs[k])
        && new_blocks[links.index_of(refs[k])].key == k by {
        let q = links.index_of(refs[k]);
        assert(new_blocks[q].key == blocks[q].key);
    }
}

/// No two blocks hold the same key.
pub open spec fn keys_distinct<K, T>(blocks: Seq<Block<K, T>>) -> bool {
    forall|i: int, j: int|
        0 <= i < blocks.len() && 0 <= j < blocks.len() && i != j ==> (#[trigger] blocks[i]).key
            != (#[trigger] blocks[j]).key
}

/// The values of `blocks` by their keys.
pub open spec fn pairs_of<K, T>(blocks: Seq<Block<K, T>>) -> Map<K, T> {
    Map::new(|key: K| holds_key(blocks, key), |key: K| blocks[key_position(blocks, key)].value)
}

/// Among distinct keys, the key of the block at `i` is found at `i`.
pub proof fn lemma_key_found<K, T>(blocks: Seq<Block<K, T>>, i: int)
    requires
        keys_distinct(blocks),
        0 <= i < blocks.len(),
    ensures
        holds_key(blocks, blocks[i].key),
        key_position(blocks, blocks[i].key) == i,
        pairs_of(blocks).contains_key(blocks[i].key),
        pairs_of(blocks)[blocks[i].key] == blocks[i].value,
{
    let q = key_position(blocks, blocks[i].key);
    assert(blocks[q].key == blocks[i].key);
}

/// An index makes the keys distinct and knows exactly the keys that are
/// held, so there are as many pairs as blocks.
pub proof fn lemma_indexed_pairs<K, T>(
    blocks: Seq<Block<K, T>>,
    links: Seq<Link>,
    refs: Map<K, Link>,
)
    requires
        indexed(blocks, links, refs),
    ensures
        keys_distinct(blocks),
        pairs_of(blocks).dom() == refs.dom(),
        pairs_of(blocks).dom().finite(),
        pairs_of(blocks).len() == blocks.len(),
{
    assert forall|i: int, j: int|
        0 <= i < blocks.len() && 0 <= j < blocks.len() && i != j implies (#[trigger] blocks[i]).key
        != (#[trigger] blocks[j]).key by {
        if blocks[i].key == blocks[j].key {
            assert(links[i] == refs[blocks[i].key]);
            assert(links[j] == refs[blocks[j].key]);
        }
    }
    assert forall|key: K| pairs_of(blocks).dom().contains(key) == refs.dom().contains(key) by {
        lemma_indexed_key(blocks, links, refs, key);
    }
    assert(pairs_of(blocks).dom() =~= refs.dom());
}

/// Putting a block with a new key at the back adds its pair.
pub proof fn lemma_pairs_push<K, T>(blocks: Seq<Block<K, T>>, block: Block<K, T>)
    requires
        keys_distinct(blocks),
        !holds_key(blocks, block.key),
    ensures
        keys_distinct(blocks.push(block)),
        pairs_of(blocks.push(block)) == pairs_of(blocks).insert(block.key, block.value),
{
    let longer = blocks.push(block);
    let n = blocks.len() as int;
    assert forall|i: int, j: int|
        0 <= i < longer.len() && 0 <= j < longer.len() && i != j implies (#[trigger] longer[i]).key
        != (#[trigger] longer[j]).key by {
        if i < n {
            assert(longer[i] == blocks[i]);
        }
        if j < n {
            assert(longer[j] == blocks[j]);
        }
    }
    assert forall|key: K| holds_key(longer, key) == (key == block.key || holds_key(
        blocks,
        key,
    )) by {
        if holds_key(blocks, key) {
            let i = key_position(blocks, key);
            assert(longer[i].key == key);
        }
        if key == block.key {
            assert(longer[n].key == key);
        }
        if holds_key(longer, key) {
            let i = key_position(longer, key);
            if i < n {
                assert(blocks[i].key == key);
            }
        }
    }
    assert forall|key: K| holds_key(longer, key) implies pairs_of(longer)[key] == pairs_of(
        blocks,
    ).insert(block.key, block.value)[key] by {
        if key == block.key {
            lemma_key_found(longer, n);
        } else {
            let i = key_position(blocks, key);
            assert(longer[i] == blocks[i]);
            lemma_key_found(longer, i);
        }
    }
    assert(pairs_of(longer) =~= pairs_of(blocks).insert(block.key, block.value));
}

/// Taking the block at `p` out takes its pair out.
pub proof fn lemma_pairs_remove<K, T>(blocks: Seq<Block<K, T>>, p: int)
    requires
        keys_distinct(blocks),
        0 <= p < blocks.len(),
    ensures
        keys_distinct(blocks.remove(p)),
        !holds_key(blocks.remove(p), blocks[p].key),
        pairs_of(blocks.remove(p)) == pairs_of(blocks).remove(blocks[p].key),
{
    let shorter = blocks.remove(p);
    let back = |i: int|
        if i < p {
            i
        } else {
            i + 1
        };
    assert forall|i: int| 0 <= i < shorter.len() implies shorter[i] == blocks[back(i)] by {}
    assert forall|i: int, j: int|
        0 <= i < shorter.len() && 0 <= j < shorter.len() && i != j implies (
        #[trigger] shorter[i]).key != (#[trigger] shorter[j]).key by {
        assert(shorter[i] == blocks[back(i)] && shorter[j] == blocks[back(j)]);
    }
    assert forall|key: K| holds_key(shorter, key) == (key != blocks[p].key && holds_key(
        blocks,
        key,
    )) by {
        if holds_key(shorter, key) {
            let i = key_position(shorter, key);
            assert(blocks[back(i)].key == key);
        }
        if key != blocks[p].key && holds_key(blocks, key) {
            let q = key_position(blocks, key);
            let i = if q < p {
                q
            } else {
                q - 1
            };
            assert(shorter[i] == blocks[q]);
        }
    }
    assert forall|key: K| holds_key(shorter, key) implies pairs_of(shorter)[key] == pairs_of(
        blocks,
    ).remove(blocks[p].key)[key] by {
        let i = key_position(shorter, key);
        lemma_key_found(blocks, back(i));
    }
    assert(pairs_of(shorter) =~= pairs_of(blocks).remove(blocks[p].key));
}

/// Moving the block at `p` to the back, with `value` in place of its own,
/// maps its key to `value` and leaves the other pairs alone.
pub proof fn lemma_pairs_replace<K, T>(blocks: Seq<Block<K, T>>, p: int, value: T)
    requires
        keys_distinct(blocks),
        0 <= p < blocks.len(),
    ensures
        pairs_of(blocks.remove(p).push(Block { key: blocks[p].key, value })) == pairs_of(
            blocks,
        ).insert(blocks[p].key, value),
{
    let key = blocks[p].key;
    lemma_pairs_remove(blocks, p);
    lemma_pairs_push(blocks.remove(p), Block { key, value });
    assert(pairs_of(blocks).remove(key).insert(key, value) =~= pairs_of(blocks).insert(
        key,
        value,
    ));
}

/// The last blocks hold some of the pairs of all the blocks.
pub proof fn lemma_pairs_suffix<K, T>(blocks: Seq<Block<K, T>>, from: int)
    requires
        keys_distinct(blocks),
        0 <= from <= blocks.len(),
    ensures
        pairs_of(blocks.subrange(from, blocks.len() as int)).submap_of(pairs_of(blocks)),
{
    let suffix = blocks.subrange(from, blocks.len() as int);
    assert forall|key: K| #[trigger]
        pairs_of(suffix).dom().contains(key) implies pairs_of(blocks).dom().contains(key)
        && pairs_of(suffix)[key] == pairs_of(blocks)[key] by {
        let i = key_position(suffix, key);
        assert(suffix[i] == blocks[from + i]);
        lemma_key_found(blocks, from + i);
    }
}

/// A cache that evicts the pair that was used least recently.
///
/// `V` backs the arena of the list of pairs, `K` and `T` are the key and
/// the value type, and `M` is the index from each key to the link of its
/// pair.
pub struct LRUCache<V, K, T, M> {
    block_list: LinkedList<V, Block<K, T>>,
    block_refs: M,
    capacity: usize,
}

impl<V, K, T, M> LRUCache<V, K, T, M> where
    V: Vector<LRUCacheBlockArenaEntry<K, T>>,
    M: KeyMap<K, Link>,
 {
    /// The list of pairs, the least recently used in front.
    pub closed spec fn list(&self) -> LinkedList<V, Block<K, T>> {
        self.block_list
    }

    /// The index from each key to the link of its pair.
    pub closed spec fn refs(&self) -> M {
        self.block_refs
    }

    /// The number of pairs that may be held.
    pub closed spec fn capacity_limit(&self) -> usize {
        self.capacity
    }

    /// The pairs in the order of their last use, the least recent first.
    pub open spec fn view(&self) -> Seq<Block<K, T>> {
        self.list()@
    }

    /// The number of pairs that the list has a place for.
    pub open spec fn slots(&self) -> usize {
        self.list().spec_capacity()
    }

    /// Whether `other` has as many places in its list, over a backing
    /// vector of the same kind and size.
    pub open spec fn same_backing(&self, other: &Self) -> bool {
        &&& self.slots() == other.slots()
        &&& self.list().arena().growable() == other.list().arena().growable()
        &&& self.list().arena().backing_capacity() == other.list().arena().backing_capacity()
    }

    /// Whether the cache holds `key`.
    pub open spec fn holds(&self, key: K) -> bool {
        holds_key(self@, key)
    }

    /// The invariant of the cache.
    ///
    /// List and index are well-formed and agree: the index has one entry
    /// for each pair, which leads from the pair's key to the pair's link.
    /// No more pairs are held than the capacity allows.
    pub open spec fn inv(&self) -> bool {
        &&& self.list().wf()
        &&& self.refs().wf()
        &&& indexed(self@, self.list().links(), self.refs()@)
        &&& self@.len() <= self.capacity_limit()
    }

    /// Index, list and cache hold the same number of entries, and each
    /// entry of the index leads from a key to the link of the pair that
    /// holds this key.
    pub proof fn lemma_index_consistent(&self, key: K)
        requires
            self.inv(),
        ensures
            self.refs()@.len() == self.list().links().len(),
            self.list().links().len() == self@.len(),
            self.list().spec_len() == self@.len(),
            self.refs()@.contains_key(key) ==> {
                let link = self.refs()@[key];
                &&& self.list().links().contains(link)
                &&& self.list()@[self.list().position(link)].key == key
            },
    {
    }

    /// In a well-formed cache no key stands twice.
    pub proof fn lemma_keys_distinct(&self, i: int, j: int)
        requires
            self.inv(),
            0 <= i < self@.len(),
            0 <= j < self@.len(),
            self@[i].key == self@[j].key,
        ensures
            i == j,
    {
        lemma_indexed_key(self@, self.list().links(), self.refs()@, self@[i].key);
    }

    /// The pair that was used least recently.
    pub fn least_recent(&self) -> (r: Option<(&K, &T)>)
        requires
            self.inv(),
        ensures
            r == (if self@.len() > 0 {
                Some((&self@[0].key, &self@[0].value))
            } else {
                None
            }),
    {
        match self.block_list.peek_front() {
            Some(block) => Some((&block.key, &block.value)),
            None => None,
        }
    }

    /// The pair that was used most recently.
    pub fn most_recent(&self) -> (r: Option<(&K, &T)>)
        requires
            self.inv(),
        ensures
            r == (if self@.len() > 0 {
                Some((&self@.last().key, &self@.last().value))
            } else {
                None
            }),
    {
        match self.block_list.peek_back() {
            Some(block) => Some((&block.key, &block.value)),
            None => None,
        }
    }

    /// An empty cache over `vector` and the empty index `map`, with room
    /// for as many pairs as `vector` takes entries.
    pub fn with_backing_vector_and_map(vector: V, map: M) -> (cache: Self)
        requires
            vector.wf(),
            map.wf(),
            map@ == Map::<K, Link>::empty(),
        ensures
            cache.inv(),
            cache@ == Seq::<Block<K, T>>::empty(),
            cache.capacity_limit() == vector.spec_capacity(),
            cache.slots() == vector.spec_capacity(),
            cache.list().arena().growable() == vector.growable(),
            cache.list().arena().backing_capacity() == vector.spec_capacity(),
    {
        let block_list = LinkedList::with_backing_vector(vector);
        let capacity = block_list.capacity();
        let cache = Self { block_list, block_refs: map, capacity };
        proof {
            assert(cache@ =~= Seq::<Block<K, T>>::empty());
        }
        cache
    }
}

impl<V, K, T, M> LRUCache<V, K, T, M> where
    V: Vector<LRUCacheBlockArenaEntry<K, T>>,
    M: KeyMap<K, Link> + Default,
 {
    /// An empty cache over `vector`, with the index that `M` starts from.
    pub fn with_backing_vector(vector: V) -> (cache: Self)
        requires
            vector.wf(),
            forall|map: M| #[trigger]
                call_ensures(M::default, (), map) ==> map.wf() && map@ == Map::<K, Link>::empty(),
        ensures
            cache.inv(),
            cache@ == Seq::<Block<K, T>>::empty(),
            cache.capacity_limit() == vector.spec_capacity(),
            cache.slots() == vector.spec_capacity(),
            cache.list().arena().growable() == vector.growable(),
            cache.list().arena().backing_capacity() == vector.spec_capacity(),
    {
        Self::with_backing_vector_and_map(vector, M::default())
    }
}

impl<V, K, T, M> Cache<K, T> for LRUCache<V, K, T, M> where
    V: Vector<LRUCacheBlockArenaEntry<K, T>>,
    M: KeyMap<K, Link>,
    K: Copy,
 {
    type Error = LRUCacheError<V::Error, M::Error>;

    open spec fn wf(&self) -> bool {
        self.inv()
    }

    open spec fn entries(&self) -> Map<K, T> {
        pairs_of(self@)
    }

    open spec fn spec_len(&self) -> usize {
        self@.len() as usize
    }

    open spec fn spec_capacity(&self) -> usize {
        self.capacity_limit()
    }

    open spec fn reserve_fits(&self, additional: usize) -> bool {
        &&& self.capacity_limit() + additional <= usize::MAX
        &&& self.list().arena().growable() && self.slots() - self@.len() < additional
            ==> self.slots() + additional <= usize::MAX
    }

    proof fn lemma_len_counts_entries(&self) {
        lemma_indexed_pairs(self@, self.list().links(), self.refs()@);
    }

    /// Stores `value` under `key` as the most recently used pair.
    ///
    /// A key that is held keeps its place in the index, moves to the back
    /// and gives its former value back. A new key evicts the least recently
    /// used pair where the cache is full. Where the index refuses the new
    /// key, the pair is taken out of the list again; a pair that was
    /// evicted to make room stays evicted.
    fn insert(&mut self, key: K, value: T) -> (r: Result<Eviction<K, T>, Self::Error>)
        ensures
            final(self).same_backing(old(self)),
            r is Ok ==> final(self)@.last() == (Block { key, value }),
            M::infallible() ==> !(r matches Err(LRUCacheError::MapError(_))),
            old(self).holds(key) ==> {
                let p = key_position(old(self)@, key);
                &&& r == Ok::<Eviction<K, T>, Self::Error>(Eviction::Value(old(self)@[p].value))
                &&& final(self)@ == old(self)@.remove(p).push(Block { key, value })
            },
            !old(self).holds(key) && old(self)@.len() == old(self).capacity_limit() ==> if old(
                self,
            )@.len() == 0 {
                &&& r matches Err(LRUCacheError::ListUnderflow)
                &&& final(self)@ == old(self)@
            } else {
                match r {
                    Ok(eviction) => {
                        &&& eviction == (Eviction::Block {
                            key: old(self)@[0].key,
                            value: old(self)@[0].value,
                        })
                        &&& final(self)@ == old(self)@.drop_first().push(Block { key, value })
                    },
                    Err(e) => e is MapError && final(self)@ == old(self)@.drop_first(),
                }
            },
            !old(self).holds(key) && old(self)@.len() < old(self).capacity_limit() ==> if old(
                self,
            )@.len() == old(self).slots() {
                &&& r matches Err(
                    LRUCacheError::ListError(ListError::ArenaError(ArenaError::OutOfMemory)),
                )
                &&& final(self)@ == old(self)@
            } else {
                match r {
                    Ok(eviction) => {
                        &&& eviction is Nothing
                        &&& final(self)@ == old(self)@.push(Block { key, value })
                    },
                    Err(e) => e is MapError && final(self)@ == old(self)@,
                }
            },
    {
        proof {
            lemma_indexed_key(self@, self.list().links(), self.refs()@, key);
            lemma_indexed_pairs(self@, self.list().links(), self.refs()@);
        }
        let found = match self.block_refs.get(&key) {
            Some(link) => Some(*link),
            None => None,
        };
        if let Some(link) = found {
            let ghost p = key_position(self@, key);
            match self.block_list.shift_push_back(&link) {
                Some(()) => {},
                None => {
                    return Err(LRUCacheError::MapListInconsistent);
                },
            }
            let ghost mid = *self;
            proof {
                lemma_indexed_promote(old(self)@, old(self).list().links(), self.refs()@, p);
                crate::collections::list::lemma_index_of_unique(
                    mid.list().links(),
                    mid.list().links().len() - 1,
                );
            }
            let mut swapped = value;
            match self.block_list.get_mut(&link) {
                Some(block) => {
                    core::mem::swap(&mut block.value, &mut swapped);
                },
                None => {
                    return Err(LRUCacheError::MapListInconsistent);
                },
            }
            proof {
                let last = mid@.len() - 1;
                lemma_indexed_update(mid@, mid.list().links(), self.refs()@, last, value);
                assert(self@ =~= old(self)@.remove(p).push(Block { key, value }));
                lemma_key_found(old(self)@, p);
                lemma_pairs_replace(old(self)@, p, value);
            }
            return Ok(Eviction::Value(swapped));
        }
        let eviction = if self.block_list.len() == self.capacity {
            match self.block_list.pop_front() {
                Some(block) => {
                    self.block_refs.remove(&block.key);
                    proof {
                        lemma_indexed_remove(
                            old(self)@,
                            old(self).list().links(),
                            old(self).refs()@,
                            0,
                        );
                        assert(old(self)@.remove(0) =~= old(self)@.drop_first());
                        assert(old(self).list().links().remove(0) =~= old(
                            self,
                        ).list().links().drop_first());
                        lemma_key_found(old(self)@, 0);
                        lemma_pairs_remove(old(self)@, 0);
                    }
                    Eviction::Block { key: block.key, value: block.value }
                },
                None => {
                    return Err(LRUCacheError::ListUnderflow);
                },
            }
        } else {
            Eviction::Nothing
        };
        let ghost mid = *self;
        proof {
            lemma_indexed_pairs(mid@, mid.list().links(), mid.refs()@);
            lemma_indexed_key(mid@, mid.list().links(), mid.refs()@, key);
            lemma_pairs_push(mid@, Block { key, value });
        }
        let link = match self.block_list.push_back(Block { key, value }) {
            Ok(link) => link,
            Err(e) => {
                return Err(LRUCacheError::ListError(e));
            },
        };
        match self.block_refs.insert(key, link) {
            Ok(_) => {
                proof {
                    lemma_indexed_push(
                        mid@,
                        mid.list().links(),
                        mid.refs()@,
                        Block { key, value },
                        link,
                    );
                }
                Ok(eviction)
            },
            Err(e) => {
                self.block_list.pop_back();
                proof {
                    assert(self@ =~= mid@);
                    assert(self.list().links() =~= mid.list().links());
                }
                Err(LRUCacheError::MapError(e))
            },
        }
    }

    /// Takes `key` and its value out. The other pairs keep their order.
    fn remove(&mut self, key: &K) -> (r: Result<Lookup<T>, Self::Error>)
        ensures
            final(self).same_backing(old(self)),
            r == Ok::<Lookup<T>, Self::Error>(
                if old(self).holds(*key) {
                    Lookup::Hit(old(self)@[key_position(old(self)@, *key)].value)
                } else {
                    Lookup::Miss
                },
            ),
            final(self)@ == (if old(self).holds(*key) {
                old(self)@.remove(key_position(old(self)@, *key))
            } else {
                old(self)@
            }),
    {
        proof {
            lemma_indexed_key(self@, self.list().links(), self.refs()@, *key);
            lemma_indexed_pairs(self@, self.list().links(), self.refs()@);
            if self.holds(*key) {
                let p = key_position(self@, *key);
                lemma_key_found(self@, p);
                lemma_pairs_remove(self@, p);
            }
        }
        match self.block_refs.remove(key) {
            Some(link) => {
                match self.block_list.remove(&link) {
                    Some(block) => {
                        proof {
                            lemma_indexed_remove(
                                old(self)@,
                                old(self).list().links(),
                                old(self).refs()@,
                                key_position(old(self)@, *key),
                            );
                        }
                        Ok(Lookup::Hit(block.value))
                    },
                    None => Err(LRUCacheError::MapListInconsistent),
                }
            },
            None => {
                proof {
                    assert(self.refs()@ =~= old(self).refs()@);
                }
                Ok(Lookup::Miss)
            },
        }
    }

    /// Lowers the capacity to `new_capacity` and evicts the least recently
    /// used pairs that no longer fit. The list keeps its places.
    fn shrink(&mut self, new_capacity: usize) -> (r: Result<(), Self::Error>)
        ensures
            r is Ok,
            final(self).same_backing(old(self)),
            final(self)@ == (if new_capacity < old(self)@.len() {
                old(self)@.subrange(old(self)@.len() - new_capacity, old(self)@.len() as int)
            } else {
                old(self)@
            }),
    {
        proof {
            lemma_indexed_pairs(self@, self.list().links(), self.refs()@);
        }
        if new_capacity >= self.capacity {
            return Ok(());
        }
        proof {
            assert(self@ =~= self@.subrange(0, self@.len() as int));
        }
        while self.block_list.len() > new_capacity
            invariant
                self.inv(),
                self.capacity_limit() == old(self).capacity_limit(),
                self.same_backing(old(self)),
                self@.len() <= old(self)@.len(),
                self@.len() >= new_capacity || self@.len() == old(self)@.len(),
                self@ == old(self)@.subrange(
                    old(self)@.len() - self@.len(),
                    old(self)@.len() as int,
                ),
            decreases self@.len(),
        {
            let ghost before = *self;
            match self.block_list.pop_front() {
                Some(block) => {
                    self.block_refs.remove(&block.key);
                    proof {
                        lemma_indexed_remove(
                            before@,
                            before.list().links(),
                            before.refs()@,
                            0,
                        );
                        assert(before@.remove(0) =~= before@.drop_first());
                        assert(before.list().links().remove(0) =~= before.list().links().drop_first());
                        assert(self@ =~= old(self)@.subrange(
                            old(self)@.len() - self@.len(),
                            old(self)@.len() as int,
                        ));
                    }
                },
                None => {
                    return Err(LRUCacheError::ListUnderflow);
                },
            }
        }
        self.capacity = new_capacity;
        proof {
            if new_capacity >= old(self)@.len() {
                assert(old(self)@ =~= old(self)@.subrange(0, old(self)@.len() as int));
            }
            lemma_pairs_suffix(old(self)@, old(self)@.len() - self@.len());
        }
        Ok(())
    }

    /// Raises the capacity by `additional`. Where the list has fewer than
    /// `additional` free places, it first grows by `additional` places.
    fn reserve(&mut self, additional: usize) -> (r: Result<(), Self::Error>)
        ensures
            final(self)@ == old(self)@,
            r is Ok <==> (old(self).slots() - old(self)@.len() >= additional || old(
                self,
            ).list().arena().growable() || old(self).slots() + additional <= old(
                self,
            ).list().arena().backing_capacity()),
            r is Err ==> (r matches Err(
                LRUCacheError::ListError(ListError::ArenaError(ArenaError::VectorError(_))),
            )),
            r is Err ==> final(self).slots() == old(self).slots(),
            r is Ok ==> final(self).slots() == (if old(self).slots() - old(self)@.len()
                >= additional {
                old(self).slots() as int
            } else {
                old(self).slots() + additional
            }),
            final(self).list().arena().growable() == old(self).list().arena().growable(),
            final(self).list().arena().backing_capacity() >= old(
                self,
            ).list().arena().backing_capacity(),
            r is Err || old(self).slots() - old(self)@.len() >= additional
                ==> final(self).same_backing(old(self)),
    {
        match self.block_list.reserve(additional) {
            Ok(()) => {},
            Err(e) => {
                return Err(LRUCacheError::ListError(e));
            },
        }
        self.capacity += additional;
        Ok(())
    }

    /// Looks `key` up. A hit moves the pair to the back, as the most
    /// recently used.
    fn query(&mut self, key: &K) -> (r: Result<Lookup<&T>, Self::Error>)
        ensures
            final(self).same_backing(old(self)),
            r == Ok::<Lookup<&T>, Self::Error>(
                if old(self).holds(*key) {
                    Lookup::Hit(&old(self)@[key_position(old(self)@, *key)].value)
                } else {
                    Lookup::Miss
                },
            ),
            final(self)@ == (if old(self).holds(*key) {
                let p = key_position(old(self)@, *key);
                old(self)@.remove(p).push(old(self)@[p])
            } else {
                old(self)@
            }),
            old(self).holds(*key) ==> final(self)@.last().key == *key,
    {
        proof {
            lemma_indexed_key(self@, self.list().links(), self.refs()@, *key);
            lemma_indexed_pairs(self@, self.list().links(), self.refs()@);
            if self.holds(*key) {
                let p = key_position(self@, *key);
                lemma_key_found(self@, p);
                lemma_pairs_replace(self@, p, self@[p].value);
                assert(pairs_of(self@).insert(*key, self@[p].value) =~= pairs_of(self@));
            }
        }
        let found = match self.block_refs.get(key) {
            Some(link) => Some(*link),
            None => None,
        };
        match found {
            Some(link) => {
                let ghost p = key_position(self@, *key);
                match self.block_list.shift_push_back(&link) {
                    Some(()) => {},
                    None => {
                        return Err(LRUCacheError::MapListInconsistent);
                    },
                }
                proof {
                    lemma_indexed_promote(old(self)@, old(self).list().links(), self.refs()@, p);
                    crate::collections::list::lemma_index_of_unique(
                        self.list().links(),
                        self.list().links().len() - 1,
                    );
                }
                match self.block_list.get(&link) {
                    Some(block) => Ok(Lookup::Hit(&block.value)),
                    None => Err(LRUCacheError::MapListInconsistent),
                }
            },
            None => Ok(Lookup::Miss),
        }
    }

    fn capacity(&self) -> (r: usize) {
        self.capacity
    }

    fn len(&self) -> (r: usize) {
        self.block_list.len()
    }

    fn is_empty(&self) -> (r: bool) {
        self.block_list.is_empty()
    }

    /// Takes every pair out; the capacity and the places of the list stay.
    /// Where the index refuses to be cleared, nothing changes.
    fn clear(&mut self) -> (r: Result<(), Self::Error>)
        ensures
            final(self).same_backing(old(self)),
            M::infallible() ==> r is Ok,
            r is Ok ==> final(self).list().arena().is_fresh(old(self).slots() as int),
            match r {
                Ok(()) => final(self)@ == Seq::<Block<K, T>>::empty(),
                Err(e) => e is MapError && final(self)@ == old(self)@,
            },
    {
        match self.block_refs.clear() {
            Ok(()) => {},
            Err(e) => {
                return Err(LRUCacheError::MapError(e));
            },
        }
        let r = self.block_list.clear();
        proof {
            assert(pairs_of(self@) =~= Map::<K, T>::empty());
        }
        match r {
            Ok(()) => Ok(()),
            Err(e) => Err(LRUCacheError::ListError(e)),
        }
    }
}

} // verus!
