//! A generational arena: a slot allocator over a [`Vector`] that hands out
//! handles which stay valid until exactly that handle is removed.
//!
//! Freed slots are threaded into a singly linked free list that is used
//! last-in first-out. Every stored value carries the generation it was
//! inserted under, so a handle to an earlier occupant of a slot never
//! resolves to a later one.
//!
//! The generation counter saturates at `u64::MAX` instead of wrapping; the
//! statements about ever greater generations therefore hold up to that point.

use crate::vector::Vector;
use core::marker::PhantomData;
use vstd::prelude::*;

verus! {

/// A handle into an [`Arena`]: a slot and the generation of its occupant.
#[derive(Clone, Copy, PartialEq, Eq, Structural, Debug)]
pub struct Index {
    pub generation: u64,
    pub idx: usize,
}

/// One slot of an [`Arena`].
#[derive(Clone, Copy, PartialEq, Eq, Debug)]
pub enum Entry<T> {
    /// The slot holds `value`, inserted under `generation`.
    Occupied { value: T, generation: u64 },
    /// The slot is on the free list, followed there by `next_free_idx`.
    Free { next_free_idx: Option<usize> },
    /// The slot was never linked; no well-formed arena holds one.
    Unmapped,
}

impl<T> Default for Entry<T> {
    fn default() -> (e: Self)
        ensures
            e == Entry::<T>::Unmapped,
    {
        Self::Unmapped
    }
}

/// Why an [`Arena`] operation failed.
#[derive(Debug)]
pub enum ArenaError<VE> {
    /// No free slot is left.
    OutOfMemory,
    /// The free list led to a slot that is not free.
    InvalidIdx,
    /// The backing vector refused to grow.
    VectorError(VE),
}

/// A run of `count` free slots starting at position `start`, each pointing
/// at the next position and the last one at `tail`.
pub open spec fn free_run<T>(start: int, count: int, tail: Option<usize>) -> Seq<Entry<T>> {
    Seq::new(
        count as nat,
        |i: int|
            Entry::Free {
                next_free_idx: if i + 1 < count {
                    Some((start + i + 1) as usize)
                } else {
                    tail
                },
            },
    )
}

/// The positions `start, start + 1, .., start + count - 1`.
pub open spec fn slot_run(start: int, count: int) -> Seq<usize> {
    Seq::new(count as nat, |i: int| (start + i) as usize)
}

/// The generation that follows `generation`.
pub open spec fn next_generation_after(generation: u64) -> u64 {
    if generation < u64::MAX {
        (generation + 1) as u64
    } else {
        generation
    }
}

/// Appends `free_run(len, count, tail)` to `entries`.
fn push_free_run<V: Vector<Entry<T>>, T>(entries: &mut V, count: usize, tail: Option<usize>) -> (r:
    Result<(), ArenaError<V::Error>>)
    requires
        old(entries).wf(),
        old(entries)@.len() + count <= old(entries).spec_capacity(),
    ensures
        r is Ok,
        final(entries).wf(),
        final(entries).spec_capacity() == old(entries).spec_capacity(),
        final(entries).growable() == old(entries).growable(),
        final(entries)@ == old(entries)@ + free_run::<T>(old(entries)@.len() as int, count as int, tail),
{
    let start: usize = entries.len();
    let mut i: usize = 0;
    while i < count
        invariant
            i <= count,
            start == old(entries)@.len(),
            start + count <= entries.spec_capacity(),
            entries.wf(),
            entries.spec_capacity() == old(entries).spec_capacity(),
            entries.growable() == old(entries).growable(),
            entries@.len() == start + i,
            entries@ == old(entries)@ + free_run::<T>(start as int, count as int, tail).take(
                i as int,
            ),
        decreases count - i,
    {
        let next_free_idx = if i + 1 < count {
            Some(start + i + 1)
        } else {
            tail
        };
        match entries.push(Entry::Free { next_free_idx }) {
            Ok(()) => {},
            Err(e) => {
                return Err(ArenaError::VectorError(e));
            },
        }
        proof {
            let run = free_run::<T>(start as int, count as int, tail);
            assert(run.take(i + 1) =~= run.take(i as int).push(run[i as int]));
            assert(entries@ =~= old(entries)@ + run.take(i + 1));
        }
        i += 1;
    }
    proof {
        let run = free_run::<T>(start as int, count as int, tail);
        assert(run.take(count as int) =~= run);
    }
    Ok(())
}

/// A generational arena over the backing vector `V`, holding values of `T`.
pub struct Arena<V, T> {
    entries_vec: V,
    generation: u64,
    free_list_head: Option<usize>,
    len: usize,
    capacity: usize,
    free_chain: Ghost<Seq<usize>>,
    _phantom_type: PhantomData<T>,
}

impl<V, T> Arena<V, T> where V: Vector<Entry<T>> {
    /// The slots, by position.
    pub closed spec fn slots(&self) -> Seq<Entry<T>> {
        self.entries_vec@
    }

    /// The free slots in the order in which `insert` will take them.
    pub closed spec fn free_slots(&self) -> Seq<usize> {
        self.free_chain@
    }

    /// The first slot of the free list.
    pub closed spec fn spec_free_list_head(&self) -> Option<usize> {
        self.free_list_head
    }

    /// The generation that the next `insert` stamps on its handle.
    pub closed spec fn next_generation(&self) -> u64 {
        self.generation
    }

    /// The number of occupied slots.
    pub closed spec fn spec_len(&self) -> usize {
        self.len
    }

    /// The number of slots.
    pub closed spec fn spec_capacity(&self) -> usize {
        self.capacity
    }

    /// The number of entries that the backing vector takes without growing.
    pub closed spec fn backing_capacity(&self) -> usize {
        self.entries_vec.spec_capacity()
    }

    /// Whether the backing vector grows on demand.
    pub closed spec fn growable(&self) -> bool {
        self.entries_vec.growable()
    }

    /// The backing vector's own invariant.
    pub closed spec fn backing_wf(&self) -> bool {
        self.entries_vec.wf()
    }

    /// Whether `index` is live: its slot is occupied under its generation.
    pub open spec fn contains(&self, index: Index) -> bool {
        &&& index.idx < self.slots().len()
        &&& self.slots()[index.idx as int] matches Entry::Occupied { generation, .. }
        &&& generation == index.generation
    }

    /// The value behind a live `index`.
    pub open spec fn value(&self, index: Index) -> T
        recommends
            self.contains(index),
    {
        self.slots()[index.idx as int]->value
    }

    /// The live handles with their values.
    pub open spec fn view(&self) -> Map<Index, T> {
        Map::new(|index: Index| self.contains(index), |index: Index| self.value(index))
    }

    /// The free slots are linked in the order of `free_slots`, starting at
    /// the head and ending in `None`.
    pub open spec fn free_list_linked(&self) -> bool {
        let free = self.free_slots();
        &&& self.spec_free_list_head() == (if free.len() == 0 {
            None
        } else {
            Some(free[0])
        })
        &&& forall|i: int|
            0 <= i < free.len() ==> (#[trigger] free[i]) < self.slots().len() && self.slots()[free[i] as int]
                == (Entry::<T>::Free {
                next_free_idx: if i + 1 < free.len() {
                    Some(free[i + 1])
                } else {
                    None
                },
            })
    }

    /// The invariant of the arena.
    ///
    /// Every slot is occupied or free; the free list visits exactly the free
    /// slots, each once, and there are `capacity - len` of them; and no
    /// occupant carries a generation that is still to be issued, unless the
    /// counter has saturated.
    pub open spec fn wf(&self) -> bool {
        &&& self.backing_wf()
        &&& self.slots().len() == self.spec_capacity()
        &&& self.spec_capacity() <= self.backing_capacity()
        &&& self.spec_len() + self.free_slots().len() == self.spec_capacity()
        &&& self.free_slots().no_duplicates()
        &&& self.free_list_linked()
        &&& forall|s: int|
            0 <= s < self.slots().len() ==> match #[trigger] self.slots()[s] {
                Entry::Occupied { generation, .. } => generation < self.next_generation()
                    || self.next_generation() == u64::MAX,
                Entry::Free { .. } => self.free_slots().contains(s as usize),
                Entry::Unmapped => false,
            }
    }

    /// Whether `other` shows the same slots, free list, counters and limits.
    pub open spec fn same_state(&self, other: &Self) -> bool {
        &&& self.slots() == other.slots()
        &&& self@ == other@
        &&& self.same_allocation(other)
    }

    /// Whether `other` has the same free list, counters and limits, so that
    /// both hand out the same handles from here on.
    pub open spec fn same_allocation(&self, other: &Self) -> bool {
        &&& self.same_shape(other)
        &&& self.free_slots() == other.free_slots()
        &&& self.spec_free_list_head() == other.spec_free_list_head()
        &&& self.spec_len() == other.spec_len()
        &&& self.spec_capacity() == other.spec_capacity()
    }

    /// Whether `other` has the same generation counter and backing limits.
    pub open spec fn same_shape(&self, other: &Self) -> bool {
        &&& self.next_generation() == other.next_generation()
        &&& self.backing_capacity() == other.backing_capacity()
        &&& self.growable() == other.growable()
    }

    /// The state right after construction or `clear`, for `capacity` slots.
    pub open spec fn is_fresh(&self, capacity: int) -> bool {
        &&& self.spec_capacity() == capacity
        &&& self.spec_len() == 0
        &&& self.next_generation() == 0
        &&& self.slots() == free_run::<T>(0, capacity, None)
        &&& self.free_slots() == slot_run(0, capacity)
    }

    /// The slots that come up when the free list is followed from `from`
    /// for at most `steps` hops.
    pub open spec fn follow_free(&self, from: Option<usize>, steps: nat) -> Seq<usize>
        decreases steps,
    {
        if steps == 0 {
            Seq::empty()
        } else {
            match from {
                Some(slot) => if slot < self.slots().len() && self.slots()[slot as int] is Free {
                    seq![slot] + self.follow_free(
                        self.slots()[slot as int]->next_free_idx,
                        (steps - 1) as nat,
                    )
                } else {
                    Seq::empty()
                },
                None => Seq::empty(),
            }
        }
    }

    /// Whether `index` carries a generation that the counter has passed.
    pub open spec fn issued(&self, index: Index) -> bool {
        index.generation < self.next_generation()
    }

    /// Following the free list from the slot at position `k` of `free_slots`
    /// visits the rest of `free_slots`.
    proof fn lemma_follow_from(&self, k: int, steps: nat)
        requires
            self.free_list_linked(),
            0 <= k <= self.free_slots().len(),
            steps >= self.free_slots().len() - k,
        ensures
            self.follow_free(
                if k < self.free_slots().len() {
                    Some(self.free_slots()[k])
                } else {
                    None
                },
                steps,
            ) == self.free_slots().subrange(k, self.free_slots().len() as int),
        decreases self.free_slots().len() - k,
    {
        let free = self.free_slots();
        let n = free.len() as int;
        if k < n {
            let slot = free[k];
            let next = if k + 1 < n {
                Some(free[k + 1])
            } else {
                None
            };
            assert(slot < self.slots().len());
            assert(self.slots()[slot as int] == Entry::<T>::Free { next_free_idx: next });
            self.lemma_follow_from(k + 1, (steps - 1) as nat);
            assert(self.follow_free(Some(slot), steps) == seq![slot] + self.follow_free(
                next,
                (steps - 1) as nat,
            ));
            assert(seq![slot] + free.subrange(k + 1, n) =~= free.subrange(k, n));
        } else {
            assert(free.subrange(k, n) =~= Seq::<usize>::empty());
        }
    }

    /// Following the free list from its head visits exactly the free
    /// slots, each once, and ends after `capacity - len` of them.
    pub proof fn lemma_free_list_sound(&self)
        requires
            self.wf(),
        ensures
            self.follow_free(self.spec_free_list_head(), self.spec_capacity() as nat)
                == self.free_slots(),
            self.free_slots().no_duplicates(),
            self.free_slots().len() == self.spec_capacity() - self.spec_len(),
            forall|slot: usize|
                self.free_slots().contains(slot) <==> (slot < self.spec_capacity()
                    && self.slots()[slot as int] is Free),
    {
        let free = self.free_slots();
        self.lemma_follow_from(0, self.spec_capacity() as nat);
        assert(free.subrange(0, free.len() as int) =~= free);
        assert forall|slot: usize| free.contains(slot) implies slot < self.spec_capacity()
            && self.slots()[slot as int] is Free by {
            let i = choose|i: int| 0 <= i < free.len() && free[i] == slot;
            assert(free[i] < self.slots().len());
        }
    }

    /// Below saturation every live handle carries a generation that the
    /// counter has passed, so the handle of the next `insert`, which carries
    /// the counter itself, is newer than each of them.
    pub proof fn lemma_live_handles_issued(&self, index: Index)
        requires
            self.wf(),
            self.next_generation() < u64::MAX,
            self.contains(index),
        ensures
            self.issued(index),
    {
    }

    /// A handle that was issued and is no longer live stays dead when a
    /// value is inserted: below saturation the new handle is none that was
    /// issued before.
    pub proof fn lemma_stale_stays_stale(before: &Self, after: &Self, stale: Index, fresh: Index, item: T)
        requires
            before.issued(stale),
            !before.contains(stale),
            fresh.generation == before.next_generation(),
            after@ == before@.insert(fresh, item),
        ensures
            !after.contains(stale),
            stale != fresh,
    {
        assert(before@.contains_key(stale) == before.contains(stale));
        assert(after@.contains_key(stale) == after.contains(stale));
    }

    /// Of two handles that `insert` issued with no `clear` in between, the
    /// later carries the greater generation, as long as the counter has not
    /// saturated.
    pub proof fn lemma_generations_increase(earlier: &Self, first: Index, later: &Self, second: Index)
        requires
            first.generation == earlier.next_generation(),
            earlier.next_generation() < u64::MAX,
            next_generation_after(earlier.next_generation()) <= later.next_generation(),
            second.generation == later.next_generation(),
        ensures
            first.generation < second.generation,
            later.issued(first),
    {
    }

    /// Arenas with the same slots hold the same live handles and values.
    pub proof fn lemma_same_slots_same_view(&self, other: &Self)
        requires
            self.slots() == other.slots(),
        ensures
            self@ == other@,
    {
        assert(self@ =~= other@);
    }

    /// Right after construction or `clear` no handle is live.
    pub proof fn lemma_fresh_holds_nothing(&self, capacity: int)
        requires
            self.is_fresh(capacity),
        ensures
            self@ == Map::<Index, T>::empty(),
    {
        assert(self@ =~= Map::<Index, T>::empty());
    }

    /// A fresh arena whose head is slot 0, or `None` without slots, is
    /// well-formed.
    proof fn lemma_fresh_wf(&self, capacity: int)
        requires
            self.is_fresh(capacity),
            self.backing_wf(),
            0 <= capacity <= self.backing_capacity(),
            self.spec_free_list_head() == (if capacity == 0 {
                None
            } else {
                Some(0usize)
            }),
        ensures
            self.wf(),
    {
        let free = self.free_slots();
        assert forall|s: int| 0 <= s < self.slots().len() implies match #[trigger] self.slots()[s] {
            Entry::Occupied { generation, .. } => generation < self.next_generation()
                || self.next_generation() == u64::MAX,
            Entry::Free { .. } => self.free_slots().contains(s as usize),
            Entry::Unmapped => false,
        } by {
            assert(free[s] == s as usize);
        }
    }

    /// Empties the backing vector and links `capacity` free slots in
    /// ascending order.
    fn reset(&mut self) -> (r: Result<(), ArenaError<V::Error>>)
        requires
            old(self).backing_wf(),
            old(self).spec_capacity() <= old(self).backing_capacity(),
        ensures
            r is Ok,
            final(self).wf(),
            final(self).is_fresh(old(self).spec_capacity() as int),
            final(self).backing_capacity() == old(self).backing_capacity(),
            final(self).growable() == old(self).growable(),
    {
        self.free_list_head = if self.capacity > 0 {
            Some(0)
        } else {
            None
        };
        self.generation = 0;
        self.len = 0;
        self.entries_vec.clear();
        let r = push_free_run(&mut self.entries_vec, self.capacity, None);
        self.free_chain = Ghost(slot_run(0, self.capacity as int));
        proof {
            assert(self.slots() =~= free_run::<T>(0, self.capacity as int, None));
            self.lemma_fresh_wf(self.capacity as int);
        }
        r
    }

    /// Removes every value and rebuilds the free list in ascending order.
    /// The generation counter starts over, so handles from before must not
    /// be used again.
    pub fn clear(&mut self) -> (r: Result<(), ArenaError<V::Error>>)
        requires
            old(self).wf(),
        ensures
            r is Ok,
            final(self).wf(),
            final(self).is_fresh(old(self).spec_capacity() as int),
            final(self)@ == Map::<Index, T>::empty(),
            final(self).backing_capacity() == old(self).backing_capacity(),
            final(self).growable() == old(self).growable(),
    {
        let r = self.reset();
        proof {
            self.lemma_fresh_holds_nothing(old(self).spec_capacity() as int);
        }
        r
    }

    /// An arena with one slot for each entry that `vector` can take.
    pub fn with_vector(vector: V) -> (arena: Self)
        requires
            vector.wf(),
        ensures
            arena.wf(),
            arena.is_fresh(vector.spec_capacity() as int),
            arena@ == Map::<Index, T>::empty(),
            arena.backing_capacity() == vector.spec_capacity(),
            arena.growable() == vector.growable(),
    {
        let capacity = vector.capacity();
        let mut arena = Self {
            entries_vec: vector,
            generation: 0,
            free_list_head: None,
            len: 0,
            capacity,
            free_chain: Ghost(Seq::empty()),
            _phantom_type: PhantomData,
        };
        let _ = arena.reset();
        proof {
            arena.lemma_fresh_holds_nothing(vector.spec_capacity() as int);
        }
        arena
    }

    /// Adds `additional` slots and puts them in front of the free list, in
    /// ascending order, so that they are handed out first.
    pub fn reserve(&mut self, additional: usize) -> (r: Result<(), ArenaError<V::Error>>)
        requires
            old(self).wf(),
            old(self).growable() ==> old(self).spec_capacity() + additional <= usize::MAX,
        ensures
            final(self).wf(),
            final(self).same_shape(old(self)) || r is Ok,
            r is Ok <==> (old(self).growable() || old(self).spec_capacity() + additional <= old(
                self,
            ).backing_capacity()),
            match r {
                Ok(()) => {
                    &&& final(self).slots() == old(self).slots() + free_run::<T>(
                        old(self).spec_capacity() as int,
                        additional as int,
                        old(self).spec_free_list_head(),
                    )
                    &&& final(self).free_slots() == slot_run(
                        old(self).spec_capacity() as int,
                        additional as int,
                    ) + old(self).free_slots()
                    &&& final(self)@ == old(self)@
                    &&& final(self).spec_capacity() == old(self).spec_capacity() + additional
                    &&& final(self).spec_len() == old(self).spec_len()
                    &&& final(self).next_generation() == old(self).next_generation()
                    &&& final(self).growable() == old(self).growable()
                    &&& final(self).backing_capacity() >= old(self).backing_capacity()
                },
                Err(e) => e is VectorError && final(self).same_state(old(self)),
            },
    {
        match self.entries_vec.reserve(additional) {
            Ok(()) => {},
            Err(e) => {
                proof {
                    self.lemma_same_slots_same_view(old(self));
                }
                return Err(ArenaError::VectorError(e));
            },
        }
        if additional == 0 {
            proof {
                assert(self.slots() =~= old(self).slots() + free_run::<T>(
                    old(self).spec_capacity() as int,
                    0,
                    old(self).spec_free_list_head(),
                ));
                assert(self.free_slots() =~= slot_run(old(self).spec_capacity() as int, 0) + old(
                    self,
                ).free_slots());
            }
            assert(self@ =~= old(self)@);
            return Ok(());
        }
        let start = self.capacity;
        let r = push_free_run(&mut self.entries_vec, additional, self.free_list_head);
        self.free_list_head = Some(start);
        self.capacity = start + additional;
        self.free_chain = Ghost(slot_run(start as int, additional as int) + old(self).free_slots());
        proof {
            Self::lemma_grown_linked(old(self), self, additional as int);
            Self::lemma_grown_classified(old(self), self, additional as int);
            Self::lemma_grown_view(old(self), self, additional as int);
        }
        r
    }

    /// Whether `self` is `before` with `additional` slots put in front of
    /// its free list.
    spec fn grown_from(&self, before: &Self, additional: int) -> bool {
        let start = before.spec_capacity() as int;
        &&& before.wf()
        &&& additional > 0
        &&& start + additional <= usize::MAX
        &&& self.slots() == before.slots() + free_run::<T>(
            start,
            additional,
            before.spec_free_list_head(),
        )
        &&& self.free_slots() == slot_run(start, additional) + before.free_slots()
        &&& self.spec_free_list_head() == Some(start as usize)
        &&& self.spec_capacity() == start + additional
        &&& self.spec_len() == before.spec_len()
        &&& self.next_generation() == before.next_generation()
    }

    /// The grown free list is linked in its order and repeats no slot.
    proof fn lemma_grown_linked(before: &Self, after: &Self, additional: int)
        requires
            after.grown_from(before, additional),
        ensures
            after.free_list_linked(),
            after.free_slots().no_duplicates(),
    {
        let start = before.spec_capacity() as int;
        let old_free = before.free_slots();
        let new_free = after.free_slots();
        let run = free_run::<T>(start, additional, before.spec_free_list_head());
        assert forall|i: int| 0 <= i < new_free.len() implies (#[trigger] new_free[i])
            < after.slots().len() && after.slots()[new_free[i] as int] == (Entry::<T>::Free {
            next_free_idx: if i + 1 < new_free.len() {
                Some(new_free[i + 1])
            } else {
                None
            },
        }) by {
            if i < additional {
                assert(new_free[i] == start + i);
                assert(after.slots()[start + i] == run[i]);
                if i + 1 < additional {
                    assert(new_free[i + 1] == start + i + 1);
                } else {
                    if old_free.len() > 0 {
                        assert(new_free[i + 1] == old_free[0]);
                    }
                }
            } else {
                let j = i - additional;
                assert(new_free[i] == old_free[j]);
                assert(old_free[j] < start);
                assert(after.slots()[old_free[j] as int] == before.slots()[old_free[j] as int]);
                if j + 1 < old_free.len() {
                    assert(new_free[i + 1] == old_free[j + 1]);
                }
            }
        }
        assert forall|i: int, j: int|
            0 <= i < new_free.len() && 0 <= j < new_free.len() && i != j implies new_free[i]
            != new_free[j] by {
            if i >= additional {
                assert(new_free[i] == old_free[i - additional]);
            }
            if j >= additional {
                assert(new_free[j] == old_free[j - additional]);
            }
        }
    }

    /// After growing, every slot is occupied under an issued generation or
    /// stands on the free list.
    proof fn lemma_grown_classified(before: &Self, after: &Self, additional: int)
        requires
            after.grown_from(before, additional),
        ensures
            forall|s: int|
                0 <= s < after.slots().len() ==> match #[trigger] after.slots()[s] {
                    Entry::Occupied { generation, .. } => generation < after.next_generation()
                        || after.next_generation() == u64::MAX,
                    Entry::Free { .. } => after.free_slots().contains(s as usize),
                    Entry::Unmapped => false,
                },
    {
        let start = before.spec_capacity() as int;
        let old_free = before.free_slots();
        let new_free = after.free_slots();
        let run = free_run::<T>(start, additional, before.spec_free_list_head());
        assert forall|s: int| 0 <= s < after.slots().len() implies match #[trigger] after.slots()[s] {
            Entry::Occupied { generation, .. } => generation < after.next_generation()
                || after.next_generation() == u64::MAX,
            Entry::Free { .. } => after.free_slots().contains(s as usize),
            Entry::Unmapped => false,
        } by {
            if s < start {
                assert(after.slots()[s] == before.slots()[s]);
                if before.slots()[s] is Free {
                    let j = choose|j: int| 0 <= j < old_free.len() && old_free[j] == s as usize;
                    assert(new_free[j + additional] == s as usize);
                }
            } else {
                assert(after.slots()[s] == run[s - start]);
                assert(new_free[s - start] == s as usize);
            }
        }
    }

    /// Growing changes no live handle and no value.
    proof fn lemma_grown_view(before: &Self, after: &Self, additional: int)
        requires
            after.grown_from(before, additional),
        ensures
            after@ == before@,
    {
        let start = before.spec_capacity() as int;
        let run = free_run::<T>(start, additional, before.spec_free_list_head());
        assert forall|index: Index| after.contains(index) == before.contains(index) by {
            if index.idx < start {
                assert(after.slots()[index.idx as int] == before.slots()[index.idx as int]);
            } else if index.idx < start + additional {
                assert(after.slots()[index.idx as int] == run[index.idx - start]);
            }
        }
        assert forall|index: Index| before.contains(index) implies after.value(index)
            == before.value(index) by {
            assert(after.slots()[index.idx as int] == before.slots()[index.idx as int]);
        }
        assert(after@ =~= before@);
    }

    /// Stores `item` in the first slot of the free list and returns its
    /// handle, stamped with the current generation.
    pub fn insert(&mut self, item: T) -> (r: Result<Index, ArenaError<V::Error>>)
        requires
            old(self).wf(),
        ensures
            final(self).wf(),
            r is Ok <==> old(self).spec_len() < old(self).spec_capacity(),
            match r {
                Ok(index) => {
                    &&& index.idx == old(self).free_slots()[0]
                    &&& index.generation == old(self).next_generation()
                    &&& !old(self).contains(index)
                    &&& forall|earlier: Index| #[trigger]
                        old(self).issued(earlier) ==> earlier.generation < index.generation
                    &&& old(self).next_generation() < u64::MAX ==> forall|earlier: Index| #[trigger]
                        old(self).contains(earlier) ==> earlier.generation < index.generation
                    &&& final(self).slots() == old(self).slots().update(
                        index.idx as int,
                        Entry::Occupied { value: item, generation: index.generation },
                    )
                    &&& final(self)@ == old(self)@.insert(index, item)
                    &&& final(self).free_slots() == old(self).free_slots().drop_first()
                    &&& final(self).next_generation() == next_generation_after(
                        old(self).next_generation(),
                    )
                    &&& final(self).spec_len() == old(self).spec_len() + 1
                    &&& final(self).spec_capacity() == old(self).spec_capacity()
                    &&& final(self).backing_capacity() == old(self).backing_capacity()
                    &&& final(self).growable() == old(self).growable()
                },
                Err(e) => e is OutOfMemory && final(self).same_state(old(self)),
            },
    {
        let old_free = match self.free_list_head {
            Some(slot) => slot,
            None => {
                proof {
                    self.lemma_same_slots_same_view(old(self));
                }
                return Err(ArenaError::OutOfMemory);
            },
        };
        proof {
            assert(self.free_slots()[0] == old_free);
        }
        let next = match self.entries_vec.get(old_free) {
            Some(Entry::Free { next_free_idx }) => *next_free_idx,
            _ => {
                return Err(ArenaError::InvalidIdx);
            },
        };
        let generation = self.generation;
        let entry = Entry::Occupied { value: item, generation };
        match self.entries_vec.get_mut(old_free) {
            Some(slot) => {
                *slot = entry;
            },
            None => {
                return Err(ArenaError::InvalidIdx);
            },
        }
        self.free_list_head = next;
        if self.generation < u64::MAX {
            self.generation += 1;
        }
        self.len += 1;
        self.free_chain = Ghost(old(self).free_slots().drop_first());
        let index = Index { generation, idx: old_free };
        proof {
            let old_free_seq = old(self).free_slots();
            let new_free = self.free_slots();
            assert forall|i: int| 0 <= i < new_free.len() implies (#[trigger] new_free[i])
                < self.slots().len() && self.slots()[new_free[i] as int] == (Entry::<T>::Free {
                next_free_idx: if i + 1 < new_free.len() {
                    Some(new_free[i + 1])
                } else {
                    None
                },
            }) by {
                assert(new_free[i] == old_free_seq[i + 1]);
                assert(old_free_seq[i + 1] != old_free_seq[0]);
                if i + 1 < new_free.len() {
                    assert(new_free[i + 1] == old_free_seq[i + 2]);
                }
            }
            assert(new_free.no_duplicates()) by {
                assert forall|i: int, j: int|
                    0 <= i < new_free.len() && 0 <= j < new_free.len() && i != j implies new_free[i]
                    != new_free[j] by {
                    assert(new_free[i] == old_free_seq[i + 1]);
                    assert(new_free[j] == old_free_seq[j + 1]);
                }
            }
            assert forall|s: int| 0 <= s < self.slots().len() implies match #[trigger] self.slots()[s] {
                Entry::Occupied { generation, .. } => generation < self.next_generation()
                    || self.next_generation() == u64::MAX,
                Entry::Free { .. } => self.free_slots().contains(s as usize),
                Entry::Unmapped => false,
            } by {
                if s != old_free {
                    assert(self.slots()[s] == old(self).slots()[s]);
                    if old(self).slots()[s] is Free {
                        let j = choose|j: int|
                            0 <= j < old_free_seq.len() && old_free_seq[j] == s as usize;
                        assert(new_free[j - 1] == s as usize);
                    }
                }
            }
            assert(self@ =~= old(self)@.insert(index, item));
        }
        Ok(index)
    }

    /// Takes the value behind `index` out and puts its slot at the front of
    /// the free list. A handle that is not live is left alone.
    pub fn remove(&mut self, index: &Index) -> (r: Option<T>)
        requires
            old(self).wf(),
        ensures
            final(self).wf(),
            match r {
                Some(value) => {
                    &&& old(self).contains(*index)
                    &&& value == old(self).value(*index)
                    &&& final(self).slots() == old(self).slots().update(
                        index.idx as int,
                        Entry::Free { next_free_idx: old(self).spec_free_list_head() },
                    )
                    &&& final(self)@ == old(self)@.remove(*index)
                    &&& final(self).free_slots() == seq![index.idx] + old(self).free_slots()
                    &&& final(self).spec_len() == old(self).spec_len() - 1
                    &&& final(self).spec_capacity() == old(self).spec_capacity()
                    &&& final(self).same_shape(old(self))
                },
                None => !old(self).contains(*index) && final(self).same_state(old(self)),
            },
    {
        let live = match self.entries_vec.get(index.idx) {
            Some(Entry::Occupied { value: _, generation }) => index.generation == *generation,
            _ => false,
        };
        if !live {
            proof {
                self.lemma_same_slots_same_view(old(self));
            }
            return None;
        }
        let mut taken = Entry::<T>::Free { next_free_idx: self.free_list_head };
        match self.entries_vec.get_mut(index.idx) {
            Some(slot) => {
                core::mem::swap(slot, &mut taken);
            },
            None => {
                return None;
            },
        }
        self.free_list_head = Some(index.idx);
        proof {
            let old_free = old(self).free_slots();
            if old(self).spec_len() == 0 {
                // every slot would be free, yet this one is occupied
                assert(old_free.len() == old(self).slots().len());
                Self::lemma_full_free_list(old_free, index.idx);
                let j = choose|j: int| 0 <= j < old_free.len() && old_free[j] == index.idx;
                assert(old(self).slots()[old_free[j] as int] is Free);
            }
        }
        self.len -= 1;
        self.free_chain = Ghost(seq![index.idx] + old(self).free_slots());
        proof {
            let old_free = old(self).free_slots();
            let new_free = self.free_slots();
            assert(!old_free.contains(index.idx)) by {
                if old_free.contains(index.idx) {
                    let j = choose|j: int| 0 <= j < old_free.len() && old_free[j] == index.idx;
                    assert(old(self).slots()[old_free[j] as int] is Free);
                }
            }
            assert forall|i: int| 0 <= i < new_free.len() implies (#[trigger] new_free[i])
                < self.slots().len() && self.slots()[new_free[i] as int] == (Entry::<T>::Free {
                next_free_idx: if i + 1 < new_free.len() {
                    Some(new_free[i + 1])
                } else {
                    None
                },
            }) by {
                if i == 0 {
                    if old_free.len() > 0 {
                        assert(new_free[1] == old_free[0]);
                    }
                } else {
                    assert(new_free[i] == old_free[i - 1]);
                    assert(old_free.contains(old_free[i - 1]));
                    if i + 1 < new_free.len() {
                        assert(new_free[i + 1] == old_free[i]);
                    }
                }
            }
            assert(new_free.no_duplicates()) by {
                assert forall|i: int, j: int|
                    0 <= i < new_free.len() && 0 <= j < new_free.len() && i != j implies new_free[i]
                    != new_free[j] by {
                    if i > 0 {
                        assert(new_free[i] == old_free[i - 1]);
                        assert(old_free.contains(old_free[i - 1]));
                    }
                    if j > 0 {
                        assert(new_free[j] == old_free[j - 1]);
                        assert(old_free.contains(old_free[j - 1]));
                    }
                }
            }
            assert forall|s: int| 0 <= s < self.slots().len() implies match #[trigger] self.slots()[s] {
                Entry::Occupied { generation, .. } => generation < self.next_generation()
                    || self.next_generation() == u64::MAX,
                Entry::Free { .. } => self.free_slots().contains(s as usize),
                Entry::Unmapped => false,
            } by {
                if s != index.idx {
                    assert(self.slots()[s] == old(self).slots()[s]);
                    if old(self).slots()[s] is Free {
                        let j = choose|j: int| 0 <= j < old_free.len() && old_free[j] == s as usize;
                        assert(new_free[j + 1] == s as usize);
                    }
                } else {
                    assert(new_free[0] == s as usize);
                }
            }
            assert(self@ =~= old(self)@.remove(*index));
        }
        match taken {
            Entry::Occupied { value, generation: _ } => Some(value),
            _ => None,
        }
    }

    /// A duplicate-free list of `n` positions below `n` holds each of them.
    proof fn lemma_full_free_list(free: Seq<usize>, slot: usize)
        requires
            free.no_duplicates(),
            forall|i: int| 0 <= i < free.len() ==> (#[trigger] free[i]) < free.len(),
            slot < free.len(),
        ensures
            free.contains(slot),
    {
        let below = Set::new(|s: usize| s < free.len());
        let held = free.to_set();
        let positions = vstd::set_lib::set_int_range(0, free.len() as int);
        let narrow = |i: int| i as usize;
        assert(positions.map(narrow) =~= below) by {
            assert forall|s: usize| below.contains(s) implies positions.map(narrow).contains(
                s,
            ) by {
                assert(positions.contains(s as int) && narrow(s as int) == s);
            }
        }
        vstd::set_lib::lemma_int_range(0, free.len() as int);
        vstd::set_lib::lemma_map_size_bound(positions, below, narrow);
        free.unique_seq_to_set();
        assert(held.subset_of(below)) by {
            assert forall|s: usize| held.contains(s) implies below.contains(s) by {
                let j = choose|j: int| 0 <= j < free.len() && free[j] == s;
                assert(free[j] < free.len());
            }
        }
        vstd::set_lib::lemma_len_subset(held, below);
        vstd::set_lib::lemma_subset_equality(held, below);
        assert(below.contains(slot));
    }

    /// The value behind `index`, if the handle is live.
    pub fn get(&self, index: &Index) -> (r: Option<&T>)
        requires
            self.wf(),
        ensures
            r == (if self.contains(*index) {
                Some(&self.value(*index))
            } else {
                None
            }),
    {
        match self.entries_vec.get(index.idx) {
            Some(Entry::Occupied { value, generation }) => {
                if index.generation == *generation {
                    Some(value)
                } else {
                    None
                }
            },
            _ => None,
        }
    }

    /// Exclusive access to the value behind `index`, if the handle is live.
    pub fn get_mut(&mut self, index: &Index) -> (r: Option<&mut T>)
        requires
            old(self).wf(),
        ensures
            final(self).wf(),
            match r {
                Some(value) => {
                    &&& old(self).contains(*index)
                    &&& *value == old(self).value(*index)
                    &&& final(self).slots() == old(self).slots().update(
                        index.idx as int,
                        Entry::Occupied { value: *final(value), generation: index.generation },
                    )
                    &&& final(self)@ == old(self)@.insert(*index, *final(value))
                    &&& final(self).same_allocation(old(self))
                },
                None => !old(self).contains(*index) && final(self).same_state(old(self)),
            },
    {
        let live = match self.entries_vec.get(index.idx) {
            Some(Entry::Occupied { value: _, generation }) => index.generation == *generation,
            _ => false,
        };
        if !live {
            proof {
                self.lemma_same_slots_same_view(old(self));
            }
            return None;
        }
        match self.entries_vec.get_mut(index.idx) {
            Some(Entry::Occupied { value, generation: _ }) => Some(value),
            _ => None,
        }
    }

    /// The slot at position `idx`, for inspection.
    pub fn entry(&self, idx: usize) -> (r: Option<&Entry<T>>)
        requires
            self.wf(),
        ensures
            r == (if idx < self.spec_capacity() {
                Some(&self.slots()[idx as int])
            } else {
                None
            }),
    {
        self.entries_vec.get(idx)
    }

    /// The slot that the next `insert` will fill.
    pub fn free_list_head(&self) -> (r: Option<usize>)
        requires
            self.wf(),
        ensures
            r == self.spec_free_list_head(),
            r == (if self.free_slots().len() == 0 {
                None
            } else {
                Some(self.free_slots()[0])
            }),
    {
        self.free_list_head
    }

    /// The number of slots.
    pub fn capacity(&self) -> (r: usize)
        ensures
            r == self.spec_capacity(),
    {
        self.capacity
    }

    /// Whether no slot is occupied.
    pub fn is_empty(&self) -> (r: bool)
        ensures
            r == (self.spec_len() == 0),
    {
        self.len == 0
    }

    /// The number of occupied slots.
    pub fn len(&self) -> (r: usize)
        ensures
            r == self.spec_len(),
    {
        self.len
    }
}

} // verus!
