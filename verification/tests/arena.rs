use generational_cache::arena::{Arena, ArenaError, Entry, Index};
use generational_cache::impls;
use generational_cache::vector::impls::alloc_vec::AllocVec;
use generational_cache::vector::impls::array::Array;
use generational_cache::vector::Vector;
use std::fmt::Debug;

const TEST_CAPACITY: usize = 1 << 4;

fn array_backed_arena<T, const N: usize>() -> Arena<Array<Entry<T>, N>, T>
where
    T: Copy + Default,
{
    Arena::with_vector(Array::new())
}

fn alloc_vec_backed_arena<T>(capacity: usize) -> Arena<AllocVec<Entry<T>>, T> {
    Arena::with_vector(AllocVec::with_capacity(capacity))
}

fn _test_arena_free_entries_init<T, V>(mut arena: Arena<V, T>)
where
    V: Vector<Entry<T>>,
    T: Debug + PartialEq,
{
    arena.clear().unwrap();

    assert_eq!(arena.free_list_head(), Some(0));

    let capacity = arena.capacity();

    for i in 0..capacity {
        let entry = arena.entry(i).unwrap();

        if i == capacity - 1 {
            assert_eq!(
                entry,
                &Entry::Free {
                    next_free_idx: None
                }
            )
        } else {
            assert_eq!(
                entry,
                &Entry::Free {
                    next_free_idx: Some(i + 1)
                }
            )
        };
    }
}

fn _test_arena_reserve<T, V>(mut arena: Arena<V, T>)
where
    V: Vector<Entry<T>>,
    T: Debug + PartialEq + Default,
{
    arena.clear().unwrap();

    let old_capacity = arena.capacity();

    const ADDITIONAL: usize = 5;

    arena.reserve(ADDITIONAL).unwrap();

    assert_eq!(arena.capacity(), old_capacity + ADDITIONAL);
    assert_eq!(arena.len(), 0);
    assert_eq!(arena.free_list_head(), Some(old_capacity));

    for i in 0..ADDITIONAL {
        let expected = if i + 1 < ADDITIONAL {
            Some(old_capacity + i + 1)
        } else if old_capacity > 0 {
            Some(0)
        } else {
            None
        };
        assert_eq!(
            arena.entry(old_capacity + i).unwrap(),
            &Entry::Free {
                next_free_idx: expected
            }
        );
    }

    for i in 0..ADDITIONAL {
        assert_eq!(
            arena.insert(T::default()).unwrap(),
            Index {
                generation: i as u64,
                idx: old_capacity + i
            }
        );
    }

    for i in 0..old_capacity {
        assert_eq!(
            arena.insert(T::default()).unwrap(),
            Index {
                generation: (ADDITIONAL + i) as u64,
                idx: i
            }
        );
    }

    match arena.insert(T::default()) {
        Err(ArenaError::OutOfMemory) => {}
        _ => unreachable!("Out of memory not triggered"),
    };
}

fn _test_arena_insert<V>(mut arena: Arena<V, i32>)
where
    V: Vector<Entry<i32>>,
{
    assert!(
        arena.capacity() >= 2,
        "Test not valid for arena with capacity < 2"
    );

    arena.clear().unwrap();

    let index_0 = arena.insert(0);
    assert_eq!(
        index_0.as_ref().unwrap(),
        &Index {
            generation: 0,
            idx: 0
        }
    );

    let index_1 = arena.insert(1);
    assert_eq!(
        index_1.as_ref().unwrap(),
        &Index {
            generation: 1,
            idx: 1
        }
    );

    let index_0_val = index_0.as_ref().unwrap();
    let item_0 = arena.get(index_0_val);
    assert_eq!(item_0, Some(&0));

    let index_1_val = index_1.unwrap();
    let item_1 = arena.get(&index_1_val);
    assert_eq!(item_1, Some(&1));

    let item_0 = arena.get_mut(index_0_val);
    assert_eq!(item_0, Some(&mut 0));
    let item_0 = item_0.unwrap();
    *item_0 = 25;

    let item_0 = arena.get(index_0_val);
    assert_eq!(item_0, Some(&25));

    let item_1 = arena.get_mut(&index_1_val);
    assert_eq!(item_1, Some(&mut 1));
    let item_1 = item_1.unwrap();
    *item_1 = -78;

    let item_1 = arena.get(&index_1_val);
    assert_eq!(item_1, Some(&-78));

    let last_len = arena.len();

    let remaining = arena.capacity() - last_len;

    for i in 0..remaining {
        let possible_idx = last_len + i;

        assert_eq!(
            arena.insert(0).unwrap(),
            Index {
                generation: possible_idx as u64,
                idx: possible_idx
            }
        )
    }

    arena.clear().unwrap();

    assert!(arena.is_empty());
}

fn _test_arena_remove<V>(mut arena: Arena<V, i32>)
where
    V: Vector<Entry<i32>>,
{
    assert!(
        arena.capacity() >= 2,
        "Test not valid for arena with capacity < 2"
    );

    arena.clear().unwrap();

    assert_eq!(arena.free_list_head().unwrap(), 0);

    let index = arena.insert(0).unwrap();
    assert_eq!(arena.get(&index), Some(&0));
    assert_eq!(
        index,
        Index {
            generation: 0,
            idx: 0
        }
    );

    assert_eq!(arena.free_list_head().unwrap(), 1);

    assert_eq!(arena.remove(&index).unwrap(), 0);
    assert_eq!(arena.get(&index), None);

    assert_eq!(arena.free_list_head().unwrap(), 0);

    let index = arena.insert(0).unwrap();
    assert_eq!(arena.get(&index), Some(&0));
    assert_eq!(
        index,
        Index {
            generation: 1,
            idx: 0
        }
    );

    assert_eq!(arena.free_list_head().unwrap(), 1);

    let last_arena_len = arena.len();
    let remaining = arena.capacity() - last_arena_len;

    let current_generation = index.generation + 1;

    for i in 0..remaining {
        let index = arena.insert(i as i32).unwrap();
        assert_eq!(
            index,
            Index {
                generation: current_generation + i as u64,
                idx: last_arena_len + i
            }
        );
    }

    // remove elements at odd indices
    let mut i = 1;
    let mut removed_count = 0;
    while i < arena.capacity() {
        arena
            .remove(&Index {
                generation: i as u64 + 1,
                idx: i,
            })
            .unwrap();

        i += 2;
        removed_count += 1;
    }

    // iterate through free list
    let mut free_position_count = 0;
    let mut free_idx = arena.free_list_head();

    while let Some(next_free) = free_idx {
        assert_eq!(next_free & 1, 1);
        free_idx = match arena.entry(next_free).unwrap() {
            Entry::Free { next_free_idx } => *next_free_idx,
            _ => None,
        };
        free_position_count += 1;
    }

    assert_eq!(removed_count, free_position_count);

    arena.clear().unwrap();

    assert!(arena.is_empty());
}

#[test]
fn test_array_arena_free_entries_init() {
    _test_arena_free_entries_init(array_backed_arena::<(), TEST_CAPACITY>());
}

#[test]
fn array_test_array_arena_free_entries_init() {
    _test_arena_free_entries_init(impls::array_backed_arena::<(), TEST_CAPACITY>());
}

#[test]
fn test_array_arena_insert() {
    _test_arena_insert(array_backed_arena::<i32, TEST_CAPACITY>());
}

#[test]
fn array_test_array_arena_insert() {
    _test_arena_insert(impls::array_backed_arena::<i32, TEST_CAPACITY>());
}

#[test]
fn test_array_arena_remove() {
    _test_arena_remove(array_backed_arena::<i32, TEST_CAPACITY>());
}

#[test]
fn array_test_array_arena_remove() {
    _test_arena_remove(impls::array_backed_arena::<i32, TEST_CAPACITY>());
}

#[test]
fn arena_over_a_given_buffer() {
    _test_arena_insert(Arena::with_vector(
        Array::<Entry<i32>, TEST_CAPACITY>::with_buffer([Entry::Unmapped; TEST_CAPACITY]),
    ));
}

#[test]
fn test_alloc_vec_arena_free_entries_init() {
    _test_arena_free_entries_init(alloc_vec_backed_arena::<()>(TEST_CAPACITY));
}

#[test]
fn test_alloc_vec_arena_reserve() {
    _test_arena_reserve(alloc_vec_backed_arena::<()>(TEST_CAPACITY));
}

#[test]
fn test_alloc_vec_arena_insert() {
    _test_arena_insert(alloc_vec_backed_arena::<i32>(TEST_CAPACITY));
}

#[test]
fn test_alloc_vec_arena_remove() {
    _test_arena_remove(alloc_vec_backed_arena::<i32>(TEST_CAPACITY));
}

#[test]
fn test_allocvec_arena_free_entries_init() {
    _test_arena_free_entries_init(alloc_vec_backed_arena::<()>(TEST_CAPACITY));
}

#[test]
fn test_allocvec_arena_insert() {
    _test_arena_insert(alloc_vec_backed_arena::<i32>(TEST_CAPACITY));
}

#[test]
fn test_allocvec_arena_remove() {
    _test_arena_remove(alloc_vec_backed_arena::<i32>(TEST_CAPACITY));
}

#[test]
fn arena_of_no_slots_is_out_of_memory() {
    let mut arena = array_backed_arena::<i32, 0>();
    assert_eq!(arena.capacity(), 0);
    assert_eq!(arena.free_list_head(), None);
    match arena.insert(1) {
        Err(ArenaError::OutOfMemory) => {}
        _ => unreachable!("Out of memory not triggered"),
    };
    assert_eq!(arena.len(), 0);
}

#[test]
fn arena_full_insert_changes_nothing() {
    let mut arena = array_backed_arena::<i32, 2>();
    let a = arena.insert(1).unwrap();
    let b = arena.insert(2).unwrap();
    match arena.insert(3) {
        Err(ArenaError::OutOfMemory) => {}
        _ => unreachable!("Out of memory not triggered"),
    };
    assert_eq!(arena.len(), 2);
    assert_eq!(arena.get(&a), Some(&1));
    assert_eq!(arena.get(&b), Some(&2));
    // the refused insert did not use up a generation
    arena.remove(&a).unwrap();
    assert_eq!(
        arena.insert(4).unwrap(),
        Index {
            generation: 2,
            idx: 0
        }
    );
}

#[test]
fn arena_array_cannot_reserve() {
    let mut arena = array_backed_arena::<i32, 2>();
    match arena.reserve(1) {
        Err(ArenaError::VectorError(_)) => {}
        _ => unreachable!("A full array reserved room"),
    };
    assert_eq!(arena.capacity(), 2);
    assert_eq!(arena.free_list_head(), Some(0));
    assert!(arena.reserve(0).is_ok());
}

#[test]
fn arena_free_list_is_last_in_first_out() {
    let mut arena = alloc_vec_backed_arena::<i32>(3);
    let a = arena.insert(10).unwrap();
    let b = arena.insert(11).unwrap();
    let c = arena.insert(12).unwrap();
    assert_eq!(arena.free_list_head(), None);
    assert_eq!(arena.remove(&a), Some(10));
    assert_eq!(arena.remove(&c), Some(12));
    assert_eq!(arena.free_list_head(), Some(2));
    assert_eq!(
        arena.entry(2).unwrap(),
        &Entry::Free {
            next_free_idx: Some(0)
        }
    );
    assert_eq!(
        arena.entry(0).unwrap(),
        &Entry::Free {
            next_free_idx: None
        }
    );
    assert_eq!(
        arena.entry(1).unwrap(),
        &Entry::Occupied {
            value: 11,
            generation: b.generation
        }
    );
    assert_eq!(arena.entry(3), None);
    assert_eq!(
        arena.insert(13).unwrap(),
        Index {
            generation: 3,
            idx: 2
        }
    );
    assert_eq!(
        arena.insert(14).unwrap(),
        Index {
            generation: 4,
            idx: 0
        }
    );
}

#[test]
fn arena_free_list_visits_each_free_slot_once() {
    let mut arena = alloc_vec_backed_arena::<usize>(8);
    let mut handles = Vec::new();
    for i in 0..8 {
        handles.push(arena.insert(i).unwrap());
    }
    for i in [5, 0, 6, 3] {
        assert_eq!(arena.remove(&handles[i]), Some(i));
    }
    let mut seen = Vec::new();
    let mut cursor = arena.free_list_head();
    while let Some(slot) = cursor {
        assert!(!seen.contains(&slot));
        seen.push(slot);
        cursor = match arena.entry(slot).unwrap() {
            Entry::Free { next_free_idx } => *next_free_idx,
            _ => unreachable!("The free list led to an occupied slot"),
        };
    }
    assert_eq!(seen, vec![3, 6, 0, 5]);
    assert_eq!(seen.len(), arena.capacity() - arena.len());
    for slot in 0..8 {
        let free = matches!(arena.entry(slot).unwrap(), Entry::Free { .. });
        assert_eq!(free, seen.contains(&slot));
    }
}

#[test]
fn arena_free_list_holds_the_odd_slots() {
    const C: usize = 9;
    let mut arena = array_backed_arena::<usize, C>();
    let mut handles = Vec::new();
    for i in 0..C {
        handles.push(arena.insert(i).unwrap());
    }
    let mut i = 1;
    while i < C {
        assert_eq!(arena.remove(&handles[i]), Some(i));
        i += 2;
    }
    let mut seen = Vec::new();
    let mut cursor = arena.free_list_head();
    while let Some(slot) = cursor {
        seen.push(slot);
        cursor = match arena.entry(slot).unwrap() {
            Entry::Free { next_free_idx } => *next_free_idx,
            _ => None,
        };
    }
    assert_eq!(seen, vec![7, 5, 3, 1]);
}

#[test]
fn arena_generations_increase_with_every_insert() {
    let mut arena = alloc_vec_backed_arena::<u8>(2);
    let mut last = arena.insert(0).unwrap();
    for _ in 0..10 {
        assert_eq!(arena.remove(&last), Some(0));
        let next = arena.insert(0).unwrap();
        assert!(next.generation > last.generation);
        assert_eq!(next.generation, last.generation + 1);
        last = next;
    }
}

#[test]
fn arena_stale_handle_is_not_found() {
    let mut arena = alloc_vec_backed_arena::<u8>(1);
    let first = arena.insert(7).unwrap();
    assert_eq!(arena.get(&first), Some(&7));
    assert_eq!(arena.remove(&first), Some(7));
    assert_eq!(arena.get(&first), None);
    assert_eq!(arena.remove(&first), None);
    let second = arena.insert(8).unwrap();
    assert_eq!(second.idx, first.idx);
    assert_ne!(second, first);
    assert_eq!(arena.get(&first), None);
    assert!(arena.get_mut(&first).is_none());
    assert_eq!(arena.remove(&first), None);
    assert_eq!(arena.get(&second), Some(&8));
    assert_eq!(arena.len(), 1);
    arena.clear().unwrap();
    assert_eq!(arena.get(&second), None);
}

#[test]
fn arena_handle_of_a_foreign_slot_is_not_found() {
    let mut arena = alloc_vec_backed_arena::<u8>(2);
    arena.insert(1).unwrap();
    let outside = Index {
        generation: 0,
        idx: 5,
    };
    assert_eq!(arena.get(&outside), None);
    assert_eq!(arena.remove(&outside), None);
    let free = Index {
        generation: 0,
        idx: 1,
    };
    assert_eq!(arena.get(&free), None);
    assert_eq!(arena.remove(&free), None);
    assert_eq!(arena.len(), 1);
}

#[test]
fn entry_default_is_unmapped() {
    assert_eq!(Entry::<u8>::default(), Entry::Unmapped);
}
