//! A doubly linked list whose nodes live in a generational [`Arena`] and
//! whose edges are arena handles.
//!
//! A [`Link`] stays valid from the push that returned it until its element is
//! removed; moving the element to either end keeps it.

use crate::arena::{Arena, ArenaError, Entry, Index};
use crate::vector::Vector;
use vstd::prelude::*;

verus! {

/// A handle to one element of a [`LinkedList`].
#[derive(Clone, Copy, PartialEq, Eq, Structural, Debug)]
pub struct Link {
    pub index: Index,
}

/// A list element with the links to its neighbours.
#[derive(Clone, Copy, PartialEq, Debug)]
pub struct Node<T> {
    pub value: T,
    pub next: Option<Link>,
    pub prev: Option<Link>,
}

impl<T> Node<T> {
    /// A node that is linked to nothing.
    pub fn with_value(value: T) -> (node: Self)
        ensures
            node == (Node { value, next: None, prev: None }),
    {
        Self { value, next: None, prev: None }
    }
}

impl<T: Default> Default for Node<T> {
    fn default() -> (node: Self)
        ensures
            call_ensures(T::default, (), node.value),
            node.next is None,
            node.prev is None,
    {
        Self { value: Default::default(), next: None, prev: None }
    }
}

/// Why a [`LinkedList`] operation failed.
#[derive(Debug)]
pub enum ListError<VE> {
    /// The arena below refused the operation.
    ArenaError(ArenaError<VE>),
    /// A link led to no node.
    LinkBroken,
    /// An element was asked of an empty list.
    ListEmpty,
}

/// The arena slot type of a list of `T`.
pub type LinkedListArenaEntry<T> = Entry<Node<T>>;

/// A doubly linked list of `T` over the backing vector `V`.
pub struct LinkedList<V, T> {
    backing_arena: Arena<V, Node<T>>,
    head: Option<Link>,
    tail: Option<Link>,
    len: usize,
    chain: Ghost<Seq<Link>>,
}

/// In a sequence without repetition, an item is found where it stands.
pub proof fn lemma_index_of_unique<A>(s: Seq<A>, i: int)
    requires
        s.no_duplicates(),
        0 <= i < s.len(),
    ensures
        s.index_of(s[i]) == i,
        s.contains(s[i]),
{
    let j = s.index_of(s[i]);
    assert(0 <= j < s.len() && s[j] == s[i]);
}

/// Whether `end` is the link `link`.
fn is_link(end: &Option<Link>, link: &Link) -> (r: bool)
    ensures
        r == (*end == Some(*link)),
{
    match end {
        Some(held) => held.index.idx == link.index.idx && held.index.generation
            == link.index.generation,
        None => false,
    }
}

impl<V, T> LinkedList<V, T> where V: Vector<Entry<Node<T>>> {
    /// The arena that holds the nodes.
    pub closed spec fn arena(&self) -> Arena<V, Node<T>> {
        self.backing_arena
    }

    /// The links of the elements, from the front to the back.
    pub closed spec fn links(&self) -> Seq<Link> {
        self.chain@
    }

    /// The link of the first element.
    pub closed spec fn spec_head(&self) -> Option<Link> {
        self.head
    }

    /// The link of the last element.
    pub closed spec fn spec_tail(&self) -> Option<Link> {
        self.tail
    }

    /// The number of elements.
    pub closed spec fn spec_len(&self) -> usize {
        self.len
    }

    /// The number of elements that fit.
    pub open spec fn spec_capacity(&self) -> usize {
        self.arena().spec_capacity()
    }

    /// The live nodes by their handles.
    pub open spec fn nodes(&self) -> Map<Index, Node<T>> {
        self.arena()@
    }

    /// The elements, from the front to the back.
    pub open spec fn view(&self) -> Seq<T> {
        Seq::new(self.links().len(), |i: int| self.nodes()[self.links()[i].index].value)
    }

    /// The position of `link` among the links.
    pub open spec fn position(&self, link: Link) -> int
        recommends
            self.links().contains(link),
    {
        self.links().index_of(link)
    }

    /// The node at position `i` is live and points at its two neighbours.
    pub open spec fn node_linked(&self, i: int) -> bool {
        let links = self.links();
        let node = self.nodes()[links[i].index];
        &&& self.nodes().contains_key(links[i].index)
        &&& node.prev == (if i > 0 {
            Some(links[i - 1])
        } else {
            None
        })
        &&& node.next == (if i + 1 < links.len() {
            Some(links[i + 1])
        } else {
            None
        })
    }

    /// Head, tail and length agree with the links.
    pub open spec fn ends_match(&self) -> bool {
        let links = self.links();
        &&& self.spec_len() == links.len()
        &&& self.spec_head() == (if links.len() == 0 {
            None
        } else {
            Some(links[0])
        })
        &&& self.spec_tail() == (if links.len() == 0 {
            None
        } else {
            Some(links.last())
        })
    }

    /// The invariant, but for one live node that may stand outside the
    /// chain with both of its links cleared.
    pub open spec fn linked_except(&self, detached: Option<Link>) -> bool {
        let links = self.links();
        &&& self.arena().wf()
        &&& self.ends_match()
        &&& links.no_duplicates()
        &&& forall|i: int| 0 <= i < links.len() ==> self.node_linked(i)
        &&& forall|index: Index| #[trigger]
            self.nodes().contains_key(index) ==> links.contains(Link { index }) || detached == Some(
                Link { index },
            )
        &&& match detached {
            Some(link) => {
                &&& self.nodes().contains_key(link.index)
                &&& !links.contains(link)
                &&& self.nodes()[link.index].prev is None
                &&& self.nodes()[link.index].next is None
                &&& self.arena().spec_len() == links.len() + 1
            },
            None => self.arena().spec_len() == links.len(),
        }
    }

    /// The invariant of the list.
    ///
    /// The links are exactly the live handles of the arena, each once; the
    /// node behind each points back at its predecessor and forward at its
    /// successor; the first has no predecessor and the last no successor.
    pub open spec fn wf(&self) -> bool {
        self.linked_except(None)
    }

    /// Whether `other` holds the same elements under the same links and
    /// will hand out the same links from here on.
    pub open spec fn same_state(&self, other: &Self) -> bool {
        &&& self.links() == other.links()
        &&& self@ == other@
        &&& self.nodes() == other.nodes()
        &&& self.arena().same_allocation(&other.arena())
    }

    /// Whether `other` holds the same values behind the same handles.
    pub open spec fn same_values(&self, other: &Self) -> bool {
        &&& self.nodes().dom() == other.nodes().dom()
        &&& forall|index: Index|
            other.nodes().contains_key(index) ==> (#[trigger] self.nodes()[index]).value
                == other.nodes()[index].value
    }

    /// The link that the next push will return.
    pub open spec fn next_link(&self) -> Link
        recommends
            self.spec_len() < self.spec_capacity(),
    {
        Link {
            index: Index {
                generation: self.arena().next_generation(),
                idx: self.arena().free_slots()[0],
            },
        }
    }

    /// The links that come up when `next` is followed from `from` for at
    /// most `steps` hops.
    pub open spec fn forward(&self, from: Option<Link>, steps: nat) -> Seq<Link>
        decreases steps,
    {
        if steps == 0 {
            Seq::empty()
        } else {
            match from {
                Some(link) => if self.nodes().contains_key(link.index) {
                    seq![link] + self.forward(self.nodes()[link.index].next, (steps - 1) as nat)
                } else {
                    Seq::empty()
                },
                None => Seq::empty(),
            }
        }
    }

    /// The links that come up when `prev` is followed from `from` for at
    /// most `steps` hops.
    pub open spec fn backward(&self, from: Option<Link>, steps: nat) -> Seq<Link>
        decreases steps,
    {
        if steps == 0 {
            Seq::empty()
        } else {
            match from {
                Some(link) => if self.nodes().contains_key(link.index) {
                    seq![link] + self.backward(self.nodes()[link.index].prev, (steps - 1) as nat)
                } else {
                    Seq::empty()
                },
                None => Seq::empty(),
            }
        }
    }

    /// Following `next` from the link at position `k` visits the rest of the
    /// links.
    proof fn lemma_forward_from(&self, k: int, steps: nat)
        requires
            self.wf(),
            0 <= k <= self.links().len(),
            steps >= self.links().len() - k,
        ensures
            self.forward(
                if k < self.links().len() {
                    Some(self.links()[k])
                } else {
                    None
                },
                steps,
            ) == self.links().subrange(k, self.links().len() as int),
        decreases self.links().len() - k,
    {
        let links = self.links();
        let n = links.len() as int;
        if k < n {
            assert(self.node_linked(k));
            self.lemma_forward_from(k + 1, (steps - 1) as nat);
            assert(seq![links[k]] + links.subrange(k + 1, n) =~= links.subrange(k, n));
        } else {
            assert(links.subrange(k, n) =~= Seq::<Link>::empty());
        }
    }

    /// Following `prev` from the link at position `k` visits the links
    /// before it, the nearest first.
    proof fn lemma_backward_from(&self, k: int, steps: nat)
        requires
            self.wf(),
            -1 <= k < self.links().len(),
            steps >= k + 1,
        ensures
            self.backward(
                if k >= 0 {
                    Some(self.links()[k])
                } else {
                    None
                },
                steps,
            ) == self.links().subrange(0, k + 1).reverse(),
        decreases k + 1,
    {
        let links = self.links();
        if k >= 0 {
            assert(self.node_linked(k));
            self.lemma_backward_from(k - 1, (steps - 1) as nat);
            assert(seq![links[k]] + links.subrange(0, k).reverse() =~= links.subrange(
                0,
                k + 1,
            ).reverse());
        } else {
            assert(links.subrange(0, 0).reverse() =~= Seq::<Link>::empty());
        }
    }

    /// Walking forward from the head and walking backward from the tail
    /// meet the same links, `len` of them, in opposite orders.
    pub proof fn lemma_traversals_agree(&self)
        requires
            self.wf(),
        ensures
            self.forward(self.spec_head(), self.spec_len() as nat) == self.links(),
            self.backward(self.spec_tail(), self.spec_len() as nat) == self.links().reverse(),
            self.links().len() == self.spec_len(),
            self.links().reverse().len() == self.spec_len(),
            self.links().to_multiset() == self.links().reverse().to_multiset(),
    {
        let links = self.links();
        let n = links.len() as int;
        self.lemma_forward_from(0, n as nat);
        self.lemma_backward_from(n - 1, n as nat);
        assert(links.subrange(0, n) =~= links);
        links.lemma_reverse_to_multiset();
    }

    /// Two well-formed lists with the same links and the same values hold
    /// the same nodes.
    pub proof fn lemma_links_fix_nodes(&self, other: &Self)
        requires
            self.wf(),
            other.wf(),
            self.links() == other.links(),
            self.same_values(other),
        ensures
            self.nodes() == other.nodes(),
            self@ == other@,
    {
        assert forall|index: Index| self.nodes().contains_key(index) implies self.nodes()[index]
            == other.nodes()[index] by {
            let i = self.links().index_of(Link { index });
            assert(self.node_linked(i));
            assert(other.node_linked(i));
        }
        assert(self.nodes() =~= other.nodes());
        assert(self@ =~= other@);
    }

    /// In a well-formed list a link is held exactly if its handle is live.
    pub proof fn lemma_live_iff_linked(&self, link: Link)
        requires
            self.wf(),
        ensures
            self.links().contains(link) <==> self.nodes().contains_key(link.index),
    {
        if self.links().contains(link) {
            let i = self.links().index_of(link);
            assert(self.node_linked(i));
        }
    }

    /// A list with one place for each entry that `vector` can take.
    pub fn with_backing_vector(vector: V) -> (list: Self)
        requires
            vector.wf(),
        ensures
            list.wf(),
            list.links() == Seq::<Link>::empty(),
            list@ == Seq::<T>::empty(),
            list.arena().is_fresh(vector.spec_capacity() as int),
            list.arena().backing_capacity() == vector.spec_capacity(),
            list.arena().growable() == vector.growable(),
    {
        let list = Self {
            backing_arena: Arena::with_vector(vector),
            head: None,
            tail: None,
            len: 0,
            chain: Ghost(Seq::empty()),
        };
        proof {
            assert(list@ =~= Seq::<T>::empty());
        }
        list
    }

    /// The number of elements that fit.
    pub fn capacity(&self) -> (r: usize)
        ensures
            r == self.spec_capacity(),
    {
        self.backing_arena.capacity()
    }

    /// The number of elements.
    pub fn len(&self) -> (r: usize)
        ensures
            r == self.spec_len(),
            self.wf() ==> r == self@.len(),
    {
        self.len
    }

    /// Whether the list holds no element.
    pub fn is_empty(&self) -> (r: bool)
        requires
            self.wf(),
        ensures
            r == (self.links().len() == 0),
    {
        self.head.is_none()
    }

    /// The node behind `link`, if its handle is live.
    fn get_node(&self, link: &Link) -> (r: Option<&Node<T>>)
        requires
            self.arena().wf(),
        ensures
            r == (if self.nodes().contains_key(link.index) {
                Some(&self.nodes()[link.index])
            } else {
                None
            }),
    {
        self.backing_arena.get(&link.index)
    }

    /// Exclusive access to the node behind `link`, if its handle is live.
    fn get_node_mut(&mut self, link: &Link) -> (r: Option<&mut Node<T>>)
        requires
            old(self).arena().wf(),
        ensures
            final(self).arena().wf(),
            final(self).links() == old(self).links(),
            final(self).spec_head() == old(self).spec_head(),
            final(self).spec_tail() == old(self).spec_tail(),
            final(self).spec_len() == old(self).spec_len(),
            final(self).arena().same_allocation(&old(self).arena()),
            match r {
                Some(node) => {
                    &&& old(self).nodes().contains_key(link.index)
                    &&& *node == old(self).nodes()[link.index]
                    &&& final(self).nodes() == old(self).nodes().insert(link.index, *final(node))
                },
                None => !old(self).nodes().contains_key(link.index) && final(self).nodes() == old(
                    self,
                ).nodes(),
            },
    {
        self.backing_arena.get_mut(&link.index)
    }

    /// Points the node behind `link` forward at `next`.
    fn set_next(&mut self, link: &Link, next: Option<Link>) -> (r: Option<()>)
        requires
            old(self).arena().wf(),
        ensures
            final(self).arena().wf(),
            final(self).links() == old(self).links(),
            final(self).spec_head() == old(self).spec_head(),
            final(self).spec_tail() == old(self).spec_tail(),
            final(self).spec_len() == old(self).spec_len(),
            final(self).arena().same_allocation(&old(self).arena()),
            r is Some <==> old(self).nodes().contains_key(link.index),
            r is Some ==> final(self).nodes() == old(self).nodes().insert(
                link.index,
                Node {
                    value: old(self).nodes()[link.index].value,
                    next,
                    prev: old(self).nodes()[link.index].prev,
                },
            ),
            r is None ==> final(self).nodes() == old(self).nodes(),
    {
        match self.get_node_mut(link) {
            Some(node) => {
                node.next = next;
                Some(())
            },
            None => None,
        }
    }

    /// Points the node behind `link` back at `prev`.
    fn set_prev(&mut self, link: &Link, prev: Option<Link>) -> (r: Option<()>)
        requires
            old(self).arena().wf(),
        ensures
            final(self).arena().wf(),
            final(self).links() == old(self).links(),
            final(self).spec_head() == old(self).spec_head(),
            final(self).spec_tail() == old(self).spec_tail(),
            final(self).spec_len() == old(self).spec_len(),
            final(self).arena().same_allocation(&old(self).arena()),
            r is Some <==> old(self).nodes().contains_key(link.index),
            r is Some ==> final(self).nodes() == old(self).nodes().insert(
                link.index,
                Node {
                    value: old(self).nodes()[link.index].value,
                    next: old(self).nodes()[link.index].next,
                    prev,
                },
            ),
            r is None ==> final(self).nodes() == old(self).nodes(),
    {
        match self.get_node_mut(link) {
            Some(node) => {
                node.prev = prev;
                Some(())
            },
            None => None,
        }
    }

    /// Exclusive access to the element behind `link`, if the list holds it.
    pub fn get_mut(&mut self, link: &Link) -> (r: Option<&mut T>)
        requires
            old(self).wf(),
        ensures
            final(self).wf(),
            final(self).links() == old(self).links(),
            final(self).arena().same_allocation(&old(self).arena()),
            match r {
                Some(value) => {
                    &&& old(self).links().contains(*link)
                    &&& *value == old(self)@[old(self).position(*link)]
                    &&& final(self)@ == old(self)@.update(old(self).position(*link), *final(value))
                },
                None => !old(self).links().contains(*link) && final(self).same_state(old(self)),
            },
    {
        proof {
            self.lemma_live_iff_linked(*link);
        }
        if self.get_node(link).is_none() {
            return None;
        }
        proof {
            let before = *self;
            assert forall|after: Self|
                after.value_updated(&before, *link) implies #[trigger] after.wf() && after@
                == before@.update(before.position(*link), after.nodes()[link.index].value) by {
                Self::lemma_value_update(&before, &after, *link, after.nodes()[link.index].value);
            }
        }
        match self.backing_arena.get_mut(&link.index) {
            Some(node) => {
                let value = &mut node.value;
                Some(value)
            },
            None => None,
        }
    }

    /// Whether this list is `before` with another value behind `link`.
    spec fn value_updated(&self, before: &Self, link: Link) -> bool {
        &&& self.arena().wf()
        &&& self.arena().same_allocation(&before.arena())
        &&& self.links() == before.links()
        &&& self.spec_head() == before.spec_head()
        &&& self.spec_tail() == before.spec_tail()
        &&& self.spec_len() == before.spec_len()
        &&& self.nodes() == before.nodes().insert(
            link.index,
            Node {
                value: self.nodes()[link.index].value,
                next: before.nodes()[link.index].next,
                prev: before.nodes()[link.index].prev,
            },
        )
    }

    /// Replacing the value behind a held link keeps the list well-formed
    /// and changes the one element.
    proof fn lemma_value_update(before: &Self, after: &Self, link: Link, value: T)
        requires
            before.wf(),
            before.nodes().contains_key(link.index),
            after.arena().wf(),
            after.arena().same_allocation(&before.arena()),
            after.links() == before.links(),
            after.spec_head() == before.spec_head(),
            after.spec_tail() == before.spec_tail(),
            after.spec_len() == before.spec_len(),
            after.nodes() == before.nodes().insert(
                link.index,
                Node {
                    value,
                    next: before.nodes()[link.index].next,
                    prev: before.nodes()[link.index].prev,
                },
            ),
        ensures
            after.wf(),
            before.links().contains(link),
            after@ == before@.update(before.position(link), value),
    {
        before.lemma_live_iff_linked(link);
        let links = before.links();
        let p = before.position(link);
        assert forall|i: int| 0 <= i < links.len() implies after.node_linked(i) by {
            assert(before.node_linked(i));
        }
        assert forall|i: int| 0 <= i < links.len() implies after@[i] == before@.update(p, value)[i] by {
            assert(before.node_linked(i));
            if i != p {
                assert(links[i] != links[p]);
            }
        }
        assert(after@ =~= before@.update(p, value));
    }

    /// Attaches the detached node behind `link` in front of the first.
    fn link_head(&mut self, link: Link) -> (r: Option<()>)
        requires
            old(self).linked_except(Some(link)),
        ensures
            r is Some,
            final(self).wf(),
            final(self).links() == seq![link] + old(self).links(),
            final(self).same_values(old(self)),
            final(self).arena().same_allocation(&old(self).arena()),
    {
        let head = self.head;
        self.set_next(&link, head)?;
        match head {
            Some(head_link) => {
                proof {
                    assert(old(self).node_linked(0));
                }
                self.set_prev(&head_link, Some(link))?;
            },
            None => {
                self.tail = Some(link);
            },
        }
        self.head = Some(link);
        self.len += 1;
        self.chain = Ghost(seq![link] + old(self).links());
        proof {
            let old_links = old(self).links();
            let links = self.links();
            assert forall|i: int| 0 <= i < links.len() implies self.node_linked(i) by {
                if i > 0 {
                    assert(old(self).node_linked(i - 1));
                    assert(links[i] == old_links[i - 1]);
                    assert(old_links.contains(old_links[i - 1]));
                    if i > 1 {
                        assert(old_links[i - 1] != old_links[0]);
                    }
                }
            }
            assert(links.no_duplicates()) by {
                assert forall|i: int, j: int|
                    0 <= i < links.len() && 0 <= j < links.len() && i != j implies links[i]
                    != links[j] by {
                    if i > 0 {
                        assert(old_links.contains(old_links[i - 1]));
                    }
                    if j > 0 {
                        assert(old_links.contains(old_links[j - 1]));
                    }
                }
            }
            assert forall|index: Index| #[trigger]
                self.nodes().contains_key(index) implies links.contains(Link { index }) by {
                assert(old(self).nodes().contains_key(index));
                if Some(Link { index }) == Some(link) {
                    assert(links[0] == link);
                } else {
                    let j = old_links.index_of(Link { index });
                    assert(links[j + 1] == Link { index });
                }
            }
            assert(self.nodes().dom() =~= old(self).nodes().dom());
        }
        Some(())
    }

    /// Attaches the detached node behind `link` after the last.
    fn link_tail(&mut self, link: Link) -> (r: Option<()>)
        requires
            old(self).linked_except(Some(link)),
        ensures
            r is Some,
            final(self).wf(),
            final(self).links() == old(self).links().push(link),
            final(self).same_values(old(self)),
            final(self).arena().same_allocation(&old(self).arena()),
    {
        let tail = self.tail;
        self.set_prev(&link, tail)?;
        match tail {
            Some(tail_link) => {
                proof {
                    assert(old(self).node_linked(old(self).links().len() - 1));
                }
                self.set_next(&tail_link, Some(link))?;
            },
            None => {
                self.head = Some(link);
            },
        }
        self.tail = Some(link);
        self.len += 1;
        self.chain = Ghost(old(self).links().push(link));
        proof {
            let old_links = old(self).links();
            let links = self.links();
            let n = old_links.len() as int;
            assert forall|i: int| 0 <= i < links.len() implies self.node_linked(i) by {
                if i < n {
                    assert(old(self).node_linked(i));
                    assert(links[i] == old_links[i]);
                    assert(old_links.contains(old_links[i]));
                    if i < n - 1 {
                        assert(old_links[i] != old_links[n - 1]);
                    }
                }
            }
            assert(links.no_duplicates()) by {
                assert forall|i: int, j: int|
                    0 <= i < links.len() && 0 <= j < links.len() && i != j implies links[i]
                    != links[j] by {
                    if i < n {
                        assert(old_links.contains(old_links[i]));
                    }
                    if j < n {
                        assert(old_links.contains(old_links[j]));
                    }
                }
            }
            assert forall|index: Index| #[trigger]
                self.nodes().contains_key(index) implies links.contains(Link { index }) by {
                assert(old(self).nodes().contains_key(index));
                if Some(Link { index }) == Some(link) {
                    assert(links[n] == link);
                } else {
                    let j = old_links.index_of(Link { index });
                    assert(links[j] == Link { index });
                }
            }
            assert(self.nodes().dom() =~= old(self).nodes().dom());
        }
        Some(())
    }

    /// Whether this list drew one slot from the free list of `old`.
    pub open spec fn allocated_from(&self, old: &Self) -> bool {
        &&& self.arena().free_slots() == old.arena().free_slots().drop_first()
        &&& self.arena().next_generation() == crate::arena::next_generation_after(
            old.arena().next_generation(),
        )
        &&& self.arena().spec_capacity() == old.arena().spec_capacity()
        &&& self.arena().backing_capacity() == old.arena().backing_capacity()
        &&& self.arena().growable() == old.arena().growable()
    }

    /// Whether this list gave the slot of `link` back to the free list of
    /// `old`, in front of the others.
    pub open spec fn released_to(&self, old: &Self, link: Link) -> bool {
        &&& self.arena().free_slots() == seq![link.index.idx] + old.arena().free_slots()
        &&& self.arena().spec_capacity() == old.arena().spec_capacity()
        &&& self.arena().same_shape(&old.arena())
    }

    /// Stores a detached node for `value` and returns its link.
    fn allocate(&mut self, value: T) -> (r: Result<Link, ListError<V::Error>>)
        requires
            old(self).wf(),
        ensures
            r is Ok <==> old(self).spec_len() < old(self).spec_capacity(),
            match r {
                Ok(link) => {
                    &&& link == old(self).next_link()
                    &&& !old(self).links().contains(link)
                    &&& final(self).linked_except(Some(link))
                    &&& final(self).links() == old(self).links()
                    &&& final(self).nodes() == old(self).nodes().insert(
                        link.index,
                        Node { value, next: None, prev: None },
                    )
                    &&& final(self).allocated_from(old(self))
                },
                Err(e) => {
                    &&& e matches ListError::ArenaError(ArenaError::OutOfMemory)
                    &&& final(self).wf()
                    &&& final(self).same_state(old(self))
                },
            },
    {
        match self.backing_arena.insert(Node::with_value(value)) {
            Ok(index) => {
                let link = Link { index };
                proof {
                    old(self).lemma_live_iff_linked(link);
                    let links = self.links();
                    assert forall|i: int| 0 <= i < links.len() implies self.node_linked(i) by {
                        assert(old(self).node_linked(i));
                    }
                }
                Ok(link)
            },
            Err(e) => {
                proof {
                    assert(self@ =~= old(self)@);
                    let links = self.links();
                    assert forall|i: int| 0 <= i < links.len() implies self.node_linked(i) by {
                        assert(old(self).node_linked(i));
                    }
                }
                Err(ListError::ArenaError(e))
            },
        }
    }

    /// Puts `value` in front of the first element.
    pub fn push_front(&mut self, value: T) -> (r: Result<Link, ListError<V::Error>>)
        requires
            old(self).wf(),
        ensures
            final(self).wf(),
            r is Ok <==> old(self).spec_len() < old(self).spec_capacity(),
            match r {
                Ok(link) => {
                    &&& link == old(self).next_link()
                    &&& !old(self).links().contains(link)
                    &&& final(self).links() == seq![link] + old(self).links()
                    &&& final(self)@ == seq![value] + old(self)@
                    &&& final(self).allocated_from(old(self))
                },
                Err(e) => {
                    &&& e matches ListError::ArenaError(ArenaError::OutOfMemory)
                    &&& final(self).same_state(old(self))
                },
            },
    {
        let link = self.allocate(value)?;
        let ghost mid = *self;
        match self.link_head(link) {
            Some(()) => {},
            None => {
                return Err(ListError::LinkBroken);
            },
        }
        proof {
            assert forall|i: int| 0 <= i < self@.len() implies self@[i] == (seq![value] + old(
                self,
            )@)[i] by {
                if i > 0 {
                    assert(old(self).node_linked(i - 1));
                    assert(mid.nodes().contains_key(old(self).links()[i - 1].index));
                }
            }
            assert(self@ =~= seq![value] + old(self)@);
        }
        Ok(link)
    }

    /// Puts `value` behind the last element.
    pub fn push_back(&mut self, value: T) -> (r: Result<Link, ListError<V::Error>>)
        requires
            old(self).wf(),
        ensures
            final(self).wf(),
            r is Ok <==> old(self).spec_len() < old(self).spec_capacity(),
            match r {
                Ok(link) => {
                    &&& link == old(self).next_link()
                    &&& !old(self).links().contains(link)
                    &&& final(self).links() == old(self).links().push(link)
                    &&& final(self)@ == old(self)@.push(value)
                    &&& final(self).allocated_from(old(self))
                },
                Err(e) => {
                    &&& e matches ListError::ArenaError(ArenaError::OutOfMemory)
                    &&& final(self).same_state(old(self))
                },
            },
    {
        let link = self.allocate(value)?;
        let ghost mid = *self;
        match self.link_tail(link) {
            Some(()) => {},
            None => {
                return Err(ListError::LinkBroken);
            },
        }
        proof {
            assert forall|i: int| 0 <= i < self@.len() implies self@[i] == old(self)@.push(
                value,
            )[i] by {
                if i < old(self).links().len() {
                    assert(old(self).node_linked(i));
                    assert(mid.nodes().contains_key(old(self).links()[i].index));
                }
            }
            assert(self@ =~= old(self)@.push(value));
        }
        Ok(link)
    }

    /// The first element.
    pub fn peek_front(&self) -> (r: Option<&T>)
        requires
            self.wf(),
        ensures
            r == (if self@.len() > 0 {
                Some(&self@[0])
            } else {
                None
            }),
    {
        match &self.head {
            Some(link) => {
                proof {
                    assert(self.node_linked(0));
                }
                match self.get_node(link) {
                    Some(node) => Some(&node.value),
                    None => None,
                }
            },
            None => None,
        }
    }

    /// The last element.
    pub fn peek_back(&self) -> (r: Option<&T>)
        requires
            self.wf(),
        ensures
            r == (if self@.len() > 0 {
                Some(&self@.last())
            } else {
                None
            }),
    {
        match &self.tail {
            Some(link) => {
                proof {
                    assert(self.node_linked(self.links().len() - 1));
                }
                match self.get_node(link) {
                    Some(node) => Some(&node.value),
                    None => None,
                }
            },
            None => None,
        }
    }

    /// Takes the first node out of the chain and clears its links.
    fn unlink_head(&mut self) -> (r: Option<Link>)
        requires
            old(self).wf(),
        ensures
            match r {
                Some(link) => {
                    &&& old(self).links().len() > 0
                    &&& link == old(self).links()[0]
                    &&& final(self).links() == old(self).links().drop_first()
                    &&& final(self).linked_except(Some(link))
                    &&& final(self).same_values(old(self))
                    &&& final(self).arena().same_allocation(&old(self).arena())
                },
                None => old(self).links().len() == 0 && *final(self) == *old(self),
            },
    {
        let head_link = match self.head {
            Some(link) => link,
            None => {
                return None;
            },
        };
        proof {
            assert(self.node_linked(0));
        }
        let next = match self.get_node(&head_link) {
            Some(node) => node.next,
            None => {
                return None;
            },
        };
        self.head = next;
        match next {
            Some(new_head) => {
                proof {
                    assert(old(self).node_linked(1));
                }
                self.set_prev(&new_head, None)?;
                self.set_next(&head_link, None)?;
            },
            None => {
                self.tail = None;
            },
        }
        self.len -= 1;
        self.chain = Ghost(old(self).links().drop_first());
        proof {
            let old_links = old(self).links();
            let links = self.links();
            assert forall|i: int| 0 <= i < links.len() implies self.node_linked(i) by {
                assert(old(self).node_linked(i + 1));
                assert(links[i] == old_links[i + 1]);
                assert(old_links[i + 1] != old_links[0]);
                if i > 0 {
                    assert(old_links[i + 1] != old_links[1]);
                }
            }
            assert(links.no_duplicates()) by {
                assert forall|i: int, j: int|
                    0 <= i < links.len() && 0 <= j < links.len() && i != j implies links[i]
                    != links[j] by {
                    assert(links[i] == old_links[i + 1] && links[j] == old_links[j + 1]);
                }
            }
            assert(!links.contains(head_link)) by {
                if links.contains(head_link) {
                    let j = links.index_of(head_link);
                    assert(old_links[j + 1] == old_links[0]);
                }
            }
            assert forall|index: Index| #[trigger]
                self.nodes().contains_key(index) implies links.contains(Link { index })
                || Some(head_link) == Some(Link { index }) by {
                assert(old(self).nodes().contains_key(index));
                let j = old_links.index_of(Link { index });
                if j > 0 {
                    assert(links[j - 1] == Link { index });
                }
            }
            assert(self.nodes().dom() =~= old(self).nodes().dom());
        }
        Some(head_link)
    }

    /// Takes the last node out of the chain and clears its links.
    fn unlink_tail(&mut self) -> (r: Option<Link>)
        requires
            old(self).wf(),
        ensures
            match r {
                Some(link) => {
                    &&& old(self).links().len() > 0
                    &&& link == old(self).links().last()
                    &&& final(self).links() == old(self).links().drop_last()
                    &&& final(self).linked_except(Some(link))
                    &&& final(self).same_values(old(self))
                    &&& final(self).arena().same_allocation(&old(self).arena())
                },
                None => old(self).links().len() == 0 && *final(self) == *old(self),
            },
    {
        let tail_link = match self.tail {
            Some(link) => link,
            None => {
                return None;
            },
        };
        let ghost n = old(self).links().len() as int;
        proof {
            assert(self.node_linked(n - 1));
        }
        let prev = match self.get_node(&tail_link) {
            Some(node) => node.prev,
            None => {
                return None;
            },
        };
        self.tail = prev;
        match prev {
            Some(new_tail) => {
                proof {
                    assert(old(self).node_linked(n - 2));
                }
                self.set_next(&new_tail, None)?;
                self.set_prev(&tail_link, None)?;
            },
            None => {
                self.head = None;
            },
        }
        self.len -= 1;
        self.chain = Ghost(old(self).links().drop_last());
        proof {
            let old_links = old(self).links();
            let links = self.links();
            assert forall|i: int| 0 <= i < links.len() implies self.node_linked(i) by {
                assert(old(self).node_linked(i));
                assert(links[i] == old_links[i]);
                assert(old_links[i] != old_links[n - 1]);
                if i < n - 2 {
                    assert(old_links[i] != old_links[n - 2]);
                }
            }
            assert(links.no_duplicates()) by {
                assert forall|i: int, j: int|
                    0 <= i < links.len() && 0 <= j < links.len() && i != j implies links[i]
                    != links[j] by {
                    assert(links[i] == old_links[i] && links[j] == old_links[j]);
                }
            }
            assert(!links.contains(tail_link)) by {
                if links.contains(tail_link) {
                    let j = links.index_of(tail_link);
                    assert(old_links[j] == old_links[n - 1]);
                }
            }
            assert forall|index: Index| #[trigger]
                self.nodes().contains_key(index) implies links.contains(Link { index })
                || Some(tail_link) == Some(Link { index }) by {
                assert(old(self).nodes().contains_key(index));
                let j = old_links.index_of(Link { index });
                if j < n - 1 {
                    assert(links[j] == Link { index });
                }
            }
            assert(self.nodes().dom() =~= old(self).nodes().dom());
        }
        Some(tail_link)
    }

    /// Takes the node behind `link` out of the chain, wherever it stands,
    /// and clears its links.
    fn unlink(&mut self, link: &Link) -> (r: Option<Link>)
        requires
            old(self).wf(),
        ensures
            match r {
                Some(unlinked) => {
                    &&& unlinked == *link
                    &&& old(self).links().contains(*link)
                    &&& final(self).links() == old(self).links().remove(old(self).position(*link))
                    &&& final(self).linked_except(Some(*link))
                    &&& final(self).same_values(old(self))
                    &&& final(self).arena().same_allocation(&old(self).arena())
                },
                None => !old(self).links().contains(*link) && *final(self) == *old(self),
            },
    {
        let ghost n = old(self).links().len() as int;
        proof {
            self.lemma_live_iff_linked(*link);
            if n > 0 {
                lemma_index_of_unique(self.links(), 0);
                lemma_index_of_unique(self.links(), n - 1);
                assert(self.links().drop_first() =~= self.links().remove(0));
                assert(self.links().drop_last() =~= self.links().remove(n - 1));
            }
        }
        if is_link(&self.head, link) {
            return self.unlink_head();
        }
        if is_link(&self.tail, link) {
            return self.unlink_tail();
        }
        let ghost p = old(self).position(*link);
        let (prev_link, next_link) = match self.get_node(link) {
            Some(node) => {
                proof {
                    assert(self.links()[p] == *link);
                    assert(self.node_linked(p));
                }
                match (node.prev, node.next) {
                    (Some(prev_link), Some(next_link)) => (prev_link, next_link),
                    _ => {
                        return None;
                    },
                }
            },
            None => {
                return None;
            },
        };
        proof {
            assert(self.node_linked(p - 1));
            assert(self.node_linked(p + 1));
        }
        self.set_prev(link, None)?;
        self.set_next(link, None)?;
        self.set_next(&prev_link, Some(next_link))?;
        self.set_prev(&next_link, Some(prev_link))?;
        self.len -= 1;
        self.chain = Ghost(old(self).links().remove(p));
        proof {
            let old_links = old(self).links();
            let links = self.links();
            assert forall|i: int| 0 <= i < links.len() implies self.node_linked(i) by {
                let k = if i < p {
                    i
                } else {
                    i + 1
                };
                assert(old(self).node_linked(k));
                assert(links[i] == old_links[k]);
                assert(old_links[k] != old_links[p]);
                if k != p - 1 {
                    assert(old_links[k] != old_links[p - 1]);
                }
                if k != p + 1 {
                    assert(old_links[k] != old_links[p + 1]);
                }
            }
            assert(links.no_duplicates()) by {
                assert forall|i: int, j: int|
                    0 <= i < links.len() && 0 <= j < links.len() && i != j implies links[i]
                    != links[j] by {
                    let ki = if i < p {
                        i
                    } else {
                        i + 1
                    };
                    let kj = if j < p {
                        j
                    } else {
                        j + 1
                    };
                    assert(links[i] == old_links[ki] && links[j] == old_links[kj]);
                }
            }
            assert(!links.contains(*link)) by {
                if links.contains(*link) {
                    let j = links.index_of(*link);
                    let k = if j < p {
                        j
                    } else {
                        j + 1
                    };
                    assert(old_links[k] == old_links[p]);
                }
            }
            assert forall|index: Index| #[trigger]
                self.nodes().contains_key(index) implies links.contains(Link { index })
                || Some(*link) == Some(Link { index }) by {
                assert(old(self).nodes().contains_key(index));
                let j = old_links.index_of(Link { index });
                if j < p {
                    assert(links[j] == Link { index });
                } else if j > p {
                    assert(links[j - 1] == Link { index });
                }
            }
            assert(self.nodes().dom() =~= old(self).nodes().dom());
        }
        Some(*link)
    }

    /// Takes the detached node behind `link` out of the arena.
    fn reclaim(&mut self, link: &Link) -> (r: Option<T>)
        requires
            old(self).linked_except(Some(*link)),
        ensures
            final(self).wf(),
            r == Some(old(self).nodes()[link.index].value),
            final(self).links() == old(self).links(),
            final(self).nodes() == old(self).nodes().remove(link.index),
            final(self).released_to(old(self), *link),
    {
        match self.backing_arena.remove(&link.index) {
            Some(node) => {
                proof {
                    let links = self.links();
                    assert forall|i: int| 0 <= i < links.len() implies self.node_linked(i) by {
                        assert(old(self).node_linked(i));
                        assert(links.contains(links[i]));
                    }
                }
                Some(node.value)
            },
            None => None,
        }
    }

    /// Taking the node at position `p` out of the chain takes the element
    /// at `p` out of the view.
    proof fn lemma_view_after_unlink(before: &Self, after: &Self, p: int)
        requires
            before.wf(),
            0 <= p < before.links().len(),
            after.links() == before.links().remove(p),
            after.same_values(before),
        ensures
            after@ == before@.remove(p),
    {
        assert forall|i: int| 0 <= i < after@.len() implies after@[i] == before@.remove(p)[i] by {
            let k = if i < p {
                i
            } else {
                i + 1
            };
            assert(before.node_linked(k));
        }
        assert(after@ =~= before@.remove(p));
    }

    /// Dropping a handle that no link names leaves the view alone.
    proof fn lemma_view_after_reclaim(before: &Self, after: &Self, link: Link)
        requires
            before.linked_except(Some(link)),
            after.links() == before.links(),
            after.nodes() == before.nodes().remove(link.index),
        ensures
            after@ == before@,
    {
        assert forall|i: int| 0 <= i < after@.len() implies after@[i] == before@[i] by {
            assert(before.node_linked(i));
            assert(before.links().contains(before.links()[i]));
        }
        assert(after@ =~= before@);
    }

    /// Takes the element behind `link` out of the list.
    pub fn remove(&mut self, link: &Link) -> (r: Option<T>)
        requires
            old(self).wf(),
        ensures
            final(self).wf(),
            match r {
                Some(value) => {
                    &&& old(self).links().contains(*link)
                    &&& value == old(self)@[old(self).position(*link)]
                    &&& final(self).links() == old(self).links().remove(old(self).position(*link))
                    &&& final(self)@ == old(self)@.remove(old(self).position(*link))
                    &&& final(self).released_to(old(self), *link)
                },
                None => !old(self).links().contains(*link) && final(self).same_state(old(self)),
            },
    {
        let link = self.unlink(link)?;
        let ghost mid = *self;
        proof {
            let p = old(self).position(link);
            assert(old(self).links()[p] == link);
            assert(old(self).node_linked(p));
            Self::lemma_view_after_unlink(old(self), &mid, p);
        }
        let r = self.reclaim(&link);
        proof {
            Self::lemma_view_after_reclaim(&mid, self, link);
        }
        r
    }

    /// Takes the first element out of the list.
    pub fn pop_front(&mut self) -> (r: Option<T>)
        requires
            old(self).wf(),
        ensures
            final(self).wf(),
            match r {
                Some(value) => {
                    &&& old(self)@.len() > 0
                    &&& value == old(self)@[0]
                    &&& final(self).links() == old(self).links().drop_first()
                    &&& final(self)@ == old(self)@.drop_first()
                    &&& final(self).released_to(old(self), old(self).links()[0])
                },
                None => old(self)@.len() == 0 && final(self).same_state(old(self)),
            },
    {
        let link = self.unlink_head()?;
        let ghost mid = *self;
        proof {
            assert(old(self).node_linked(0));
            assert(old(self).links().drop_first() =~= old(self).links().remove(0));
            Self::lemma_view_after_unlink(old(self), &mid, 0);
            assert(old(self)@.drop_first() =~= old(self)@.remove(0));
        }
        let r = self.reclaim(&link);
        proof {
            Self::lemma_view_after_reclaim(&mid, self, link);
        }
        r
    }

    /// Takes the last element out of the list.
    pub fn pop_back(&mut self) -> (r: Option<T>)
        requires
            old(self).wf(),
        ensures
            final(self).wf(),
            match r {
                Some(value) => {
                    &&& old(self)@.len() > 0
                    &&& value == old(self)@.last()
                    &&& final(self).links() == old(self).links().drop_last()
                    &&& final(self)@ == old(self)@.drop_last()
                    &&& final(self).released_to(old(self), old(self).links().last())
                },
                None => old(self)@.len() == 0 && final(self).same_state(old(self)),
            },
    {
        let link = self.unlink_tail()?;
        let ghost mid = *self;
        proof {
            let n = old(self).links().len() as int;
            assert(old(self).node_linked(n - 1));
            assert(old(self).links().drop_last() =~= old(self).links().remove(n - 1));
            Self::lemma_view_after_unlink(old(self), &mid, n - 1);
            assert(old(self)@.drop_last() =~= old(self)@.remove(n - 1));
        }
        let r = self.reclaim(&link);
        proof {
            Self::lemma_view_after_reclaim(&mid, self, link);
        }
        r
    }

    /// Moves the element behind `link` to the front. The link stays valid.
    pub fn shift_push_front(&mut self, link: &Link) -> (r: Option<()>)
        requires
            old(self).wf(),
        ensures
            final(self).wf(),
            final(self).arena().same_allocation(&old(self).arena()),
            match r {
                Some(()) => {
                    let p = old(self).position(*link);
                    &&& old(self).links().contains(*link)
                    &&& final(self).links() == seq![*link] + old(self).links().remove(p)
                    &&& final(self)@ == seq![old(self)@[p]] + old(self)@.remove(p)
                },
                None => !old(self).links().contains(*link) && final(self).same_state(old(self)),
            },
            old(self).spec_head() == Some(*link) ==> final(self).same_state(old(self)),
    {
        let link = self.unlink(link)?;
        let ghost mid = *self;
        proof {
            let p = old(self).position(link);
            assert(old(self).links()[p] == link);
            assert(old(self).node_linked(p));
            Self::lemma_view_after_unlink(old(self), &mid, p);
        }
        let r = self.link_head(link);
        proof {
            let p = old(self).position(link);
            assert forall|i: int| 0 <= i < self@.len() implies self@[i] == (seq![old(self)@[p]]
                + old(self)@.remove(p))[i] by {
                if i > 0 {
                    assert(mid@[i - 1] == old(self)@.remove(p)[i - 1]);
                    assert(self.links()[i] == mid.links()[i - 1]);
                    assert(mid.node_linked(i - 1));
                }
            }
            assert(self@ =~= seq![old(self)@[p]] + old(self)@.remove(p));
            if old(self).spec_head() == Some(link) {
                lemma_index_of_unique(old(self).links(), 0);
                assert(self.links() =~= old(self).links());
                self.lemma_links_fix_nodes(old(self));
            }
        }
        r
    }

    /// Moves the element behind `link` to the back. The link stays valid.
    pub fn shift_push_back(&mut self, link: &Link) -> (r: Option<()>)
        requires
            old(self).wf(),
        ensures
            final(self).wf(),
            final(self).arena().same_allocation(&old(self).arena()),
            match r {
                Some(()) => {
                    let p = old(self).position(*link);
                    &&& old(self).links().contains(*link)
                    &&& final(self).links() == old(self).links().remove(p).push(*link)
                    &&& final(self)@ == old(self)@.remove(p).push(old(self)@[p])
                },
                None => !old(self).links().contains(*link) && final(self).same_state(old(self)),
            },
            old(self).spec_tail() == Some(*link) ==> final(self).same_state(old(self)),
    {
        let link = self.unlink(link)?;
        let ghost mid = *self;
        proof {
            let p = old(self).position(link);
            assert(old(self).links()[p] == link);
            assert(old(self).node_linked(p));
            Self::lemma_view_after_unlink(old(self), &mid, p);
        }
        let r = self.link_tail(link);
        proof {
            let p = old(self).position(link);
            assert forall|i: int| 0 <= i < self@.len() implies self@[i] == old(self)@.remove(
                p,
            ).push(old(self)@[p])[i] by {
                if i < mid.links().len() {
                    assert(mid@[i] == old(self)@.remove(p)[i]);
                    assert(self.links()[i] == mid.links()[i]);
                    assert(mid.node_linked(i));
                }
            }
            assert(self@ =~= old(self)@.remove(p).push(old(self)@[p]));
            if old(self).spec_tail() == Some(link) {
                let n = old(self).links().len() as int;
                lemma_index_of_unique(old(self).links(), n - 1);
                assert(self.links() =~= old(self).links());
                self.lemma_links_fix_nodes(old(self));
            }
        }
        r
    }

    /// Removes every element. Links from before must not be used again.
    pub fn clear(&mut self) -> (r: Result<(), ListError<V::Error>>)
        requires
            old(self).wf(),
        ensures
            r is Ok,
            final(self).wf(),
            final(self).links() == Seq::<Link>::empty(),
            final(self)@ == Seq::<T>::empty(),
            final(self).arena().is_fresh(old(self).spec_capacity() as int),
            final(self).arena().backing_capacity() == old(self).arena().backing_capacity(),
            final(self).arena().growable() == old(self).arena().growable(),
    {
        match self.backing_arena.clear() {
            Ok(()) => {},
            Err(e) => {
                return Err(ListError::ArenaError(e));
            },
        }
        self.head = None;
        self.tail = None;
        self.len = 0;
        self.chain = Ghost(Seq::empty());
        proof {
            assert(self@ =~= Seq::<T>::empty());
        }
        Ok(())
    }

    /// Makes room for `additional` more elements. Where that many places are
    /// free already, nothing changes; else the arena grows by `additional`
    /// slots, which are handed out before the older free ones.
    pub fn reserve(&mut self, additional: usize) -> (r: Result<(), ListError<V::Error>>)
        requires
            old(self).wf(),
            old(self).arena().growable() && old(self).spec_capacity() - old(self).spec_len()
                < additional ==> old(self).spec_capacity() + additional <= usize::MAX,
        ensures
            final(self).wf(),
            final(self).links() == old(self).links(),
            final(self)@ == old(self)@,
            r is Ok <==> (old(self).spec_capacity() - old(self).spec_len() >= additional || old(
                self,
            ).arena().growable() || old(self).spec_capacity() + additional <= old(
                self,
            ).arena().backing_capacity()),
            match r {
                Ok(()) => if old(self).spec_capacity() - old(self).spec_len() >= additional {
                    final(self).same_state(old(self))
                } else {
                    &&& final(self).spec_capacity() == old(self).spec_capacity() + additional
                    &&& final(self).arena().free_slots() == crate::arena::slot_run(
                        old(self).spec_capacity() as int,
                        additional as int,
                    ) + old(self).arena().free_slots()
                    &&& final(self).arena().next_generation() == old(self).arena().next_generation()
                    &&& final(self).arena().growable() == old(self).arena().growable()
                    &&& final(self).arena().backing_capacity() >= old(
                        self,
                    ).arena().backing_capacity()
                },
                Err(e) => {
                    &&& e matches ListError::ArenaError(ArenaError::VectorError(_))
                    &&& final(self).same_state(old(self))
                },
            },
    {
        let remaining = self.capacity() - self.len();
        if remaining >= additional {
            return Ok(());
        }
        let r = self.backing_arena.reserve(additional);
        proof {
            let links = self.links();
            assert forall|i: int| 0 <= i < links.len() implies self.node_linked(i) by {
                assert(old(self).node_linked(i));
            }
            assert(self@ =~= old(self)@);
        }
        match r {
            Ok(()) => Ok(()),
            Err(e) => Err(ListError::ArenaError(e)),
        }
    }

    /// A cursor that walks the elements from the front to the back.
    pub fn iter(&self) -> (it: Iter<'_, V, T>)
        requires
            self.wf(),
        ensures
            it.wf(),
            it.list() == self,
            it.position() == 0,
    {
        Iter { list: self, cursor: self.head.as_ref(), pos: Ghost(0) }
    }

    /// The element behind `link`, if the list holds it.
    pub fn get(&self, link: &Link) -> (r: Option<&T>)
        requires
            self.wf(),
        ensures
            r == (if self.links().contains(*link) {
                Some(&self@[self.position(*link)])
            } else {
                None
            }),
    {
        proof {
            self.lemma_live_iff_linked(*link);
            if self.links().contains(*link) {
                let i = self.position(*link);
                assert(self.links()[i] == *link);
            }
        }
        match self.get_node(link) {
            Some(node) => Some(&node.value),
            None => None,
        }
    }
}

/// A cursor over a [`LinkedList`], from the front to the back.
pub struct Iter<'a, V, T> {
    list: &'a LinkedList<V, T>,
    cursor: Option<&'a Link>,
    pos: Ghost<int>,
}

impl<'a, V, T> Iter<'a, V, T> where V: Vector<Entry<Node<T>>> {
    /// The list that is walked.
    pub closed spec fn list(&self) -> &LinkedList<V, T> {
        self.list
    }

    /// The number of elements that were handed out.
    pub closed spec fn position(&self) -> int {
        self.pos@
    }

    /// The cursor stands on the link at its position, or past the end.
    pub closed spec fn wf(&self) -> bool {
        let links = self.list.links();
        &&& self.list.wf()
        &&& 0 <= self.pos@ <= links.len()
        &&& self.cursor == (if self.pos@ < links.len() {
            Some(&links[self.pos@])
        } else {
            None
        })
    }

    /// The next link with its element, or `None` past the last.
    pub fn next(&mut self) -> (r: Option<(&'a Link, &'a T)>)
        requires
            old(self).wf(),
        ensures
            final(self).wf(),
            final(self).list() == old(self).list(),
            match r {
                Some((link, value)) => {
                    &&& old(self).position() < old(self).list().links().len()
                    &&& *link == old(self).list().links()[old(self).position()]
                    &&& *value == old(self).list()@[old(self).position()]
                    &&& final(self).position() == old(self).position() + 1
                },
                None => {
                    &&& old(self).position() == old(self).list().links().len()
                    &&& final(self).position() == old(self).position()
                },
            },
    {
        let cursor = match self.cursor {
            Some(link) => link,
            None => {
                return None;
            },
        };
        proof {
            assert(self.list.node_linked(self.pos@));
        }
        let cursor_node = match self.list.get_node(cursor) {
            Some(node) => node,
            None => {
                return None;
            },
        };
        self.cursor = cursor_node.next.as_ref();
        self.pos = Ghost(self.pos@ + 1);
        Some((cursor, &cursor_node.value))
    }
}

} // verus!
