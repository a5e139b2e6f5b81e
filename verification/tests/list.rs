use generational_cache::arena::{ArenaError, Entry};
use generational_cache::impls;
use generational_cache::collections::list::{
    Link, LinkedList, LinkedListArenaEntry, ListError, Node,
};
use generational_cache::vector::impls::alloc_vec::AllocVec;
use generational_cache::vector::impls::array::Array;
use generational_cache::vector::Vector;
use std::fmt::Debug;

const TEST_CAPACITY: usize = 1 << 4;

fn array_backed_list<T, const N: usize>() -> LinkedList<Array<LinkedListArenaEntry<T>, N>, T>
where
    T: Copy + Default,
{
    LinkedList::with_backing_vector(Array::new())
}

fn alloc_vec_backed_list<T>(capacity: usize) -> LinkedList<AllocVec<LinkedListArenaEntry<T>>, T> {
    LinkedList::with_backing_vector(AllocVec::with_capacity(capacity))
}

fn items<V, T>(list: &LinkedList<V, T>) -> Vec<(Link, T)>
where
    V: Vector<Entry<Node<T>>>,
    T: Copy,
{
    let mut found = Vec::new();
    let mut iter = list.iter();
    while let Some((link, value)) = iter.next() {
        found.push((*link, *value));
    }
    found
}

fn values<V, T>(list: &LinkedList<V, T>) -> Vec<T>
where
    V: Vector<Entry<Node<T>>>,
    T: Copy,
{
    items(list).into_iter().map(|(_, value)| value).collect()
}

fn _test_list_invariants<T, V>(mut list: LinkedList<V, T>)
where
    V: Vector<Entry<Node<T>>>,
    T: Debug + PartialEq + Default,
{
    list.clear().unwrap();

    let capacity = list.capacity();

    assert!(list.is_empty());

    assert_eq!(list.peek_front(), None);
    assert_eq!(list.peek_back(), None);

    for _ in 0..capacity {
        list.push_back(T::default()).unwrap();
    }

    assert!(list.len() == list.capacity());

    let mut i = 0;
    let mut iter = list.iter();
    while let Some((_, t)) = iter.next() {
        assert_eq!(t, &T::default());
        i += 1;
    }

    assert_eq!(i, list.len());

    assert_eq!(list.peek_front(), Some(&T::default()));
    assert_eq!(list.peek_back(), Some(&T::default()));

    match list.push_front(T::default()) {
        Err(ListError::ArenaError(ArenaError::OutOfMemory)) => {}
        _ => unreachable!("Out of memory not triggered"),
    };

    match list.push_back(T::default()) {
        Err(ListError::ArenaError(ArenaError::OutOfMemory)) => {}
        _ => unreachable!("Out of memory not triggered"),
    };

    const ADDITIONAL: usize = 5;

    let result = list.reserve(ADDITIONAL);

    for _ in 0..ADDITIONAL {
        if result.is_ok() {
            list.push_front(T::default()).unwrap();
        }
    }

    let result = list.reserve(ADDITIONAL);

    for _ in 0..ADDITIONAL {
        if result.is_ok() {
            list.push_front(T::default()).unwrap();
        }
    }

    list.clear().unwrap();

    assert!(list.is_empty());
}

fn _test_list_front_push_peek_pop_consistency<V>(mut list: LinkedList<V, i32>)
where
    V: Vector<Entry<Node<i32>>>,
{
    list.clear().unwrap();

    let capacity = list.capacity();

    assert!(list.is_empty());
    assert_eq!(list.peek_front(), None);
    assert_eq!(list.pop_front(), None);

    for ele in 0..capacity {
        list.push_front(ele as i32).unwrap();
    }

    match list.push_front(0) {
        Err(ListError::ArenaError(ArenaError::OutOfMemory)) => {}
        _ => unreachable!("Out of memory not triggered"),
    };

    assert_eq!(list.peek_front().unwrap(), &(capacity as i32 - 1));

    let mut i = capacity as i32 - 1;
    let mut iter = list.iter();
    while let Some((_, ele)) = iter.next() {
        assert_eq!(ele, &i);
        i -= 1;
    }
    assert_eq!(i, -1);

    let mut i = capacity as i32 - 1;
    while let Some(ele) = list.pop_front() {
        assert_eq!(ele, i);
        i -= 1;
    }
    assert_eq!(i, -1);

    assert!(list.is_empty());
}

fn _test_list_back_push_peek_pop_consistency<V>(mut list: LinkedList<V, i32>)
where
    V: Vector<Entry<Node<i32>>>,
{
    list.clear().unwrap();

    let capacity = list.capacity();

    assert!(list.is_empty());
    assert_eq!(list.peek_back(), None);
    assert_eq!(list.pop_back(), None);

    for ele in 0..capacity {
        list.push_back(ele as i32).unwrap();
    }

    match list.push_back(0) {
        Err(ListError::ArenaError(ArenaError::OutOfMemory)) => {}
        _ => unreachable!("Out of memory not triggered"),
    };

    assert_eq!(list.peek_back().unwrap(), &(capacity as i32 - 1));

    let mut i = 0;
    let mut iter = list.iter();
    while let Some((_, ele)) = iter.next() {
        assert_eq!(ele, &i);
        i += 1;
    }
    assert_eq!(i as usize, capacity);

    let mut i = capacity as i32 - 1;
    while let Some(ele) = list.pop_back() {
        assert_eq!(ele, i);
        i -= 1;
    }
    assert_eq!(i, -1);

    assert!(list.is_empty());
}

fn find_link<V>(list: &LinkedList<V, i32>, parity: i32) -> Link
where
    V: Vector<Entry<Node<i32>>>,
{
    let mut iter = list.iter();
    while let Some((link, value)) = iter.next() {
        if value & 1 == parity {
            return *link;
        }
    }
    unreachable!("No element of that parity")
}

fn _test_list_remove<V>(mut list: LinkedList<V, i32>)
where
    V: Vector<Entry<Node<i32>>>,
{
    let capacity = list.capacity();

    assert!(capacity >= 3, "Test not valid for lists with capacity < 3 ");

    list.clear().unwrap();
    assert!(list.is_empty());

    for ele in 0..capacity {
        list.push_back(ele as i32).unwrap();
    }

    let link = find_link(&list, 1);

    list.remove(&link).unwrap();

    assert!(list.remove(&link).is_none());

    assert!(list.get(&link).is_none());

    assert_eq!(list.len(), list.capacity() - 1);

    let mut iter = list.iter();
    while let Some((_, ele)) = iter.next() {
        assert_ne!(ele, &1);
    }

    let link = find_link(&list, 0);

    list.remove(&link).unwrap();

    assert_eq!(list.peek_front(), Some(&2));

    assert_eq!(list.len(), list.capacity() - 2);

    let mut link = None;

    let mut iter = list.iter();
    while let Some((l, _)) = iter.next() {
        link = Some(l);
    }

    let link = *link.unwrap();

    list.remove(&link).unwrap();

    assert_eq!(list.len(), list.capacity() - 3);
}

fn _test_list_shift_push<V>(mut list: LinkedList<V, i32>)
where
    V: Vector<Entry<Node<i32>>>,
{
    let capacity = list.capacity();

    assert!(capacity >= 3, "Test not valid for lists with capacity < 3 ");

    list.clear().unwrap();
    assert!(list.is_empty());

    for ele in 0..capacity {
        list.push_back(ele as i32).unwrap();
    }

    assert_eq!(list.peek_front(), Some(&0));

    let link = find_link(&list, 1);

    assert_eq!(list.len(), list.capacity());

    list.shift_push_front(&link).unwrap();

    assert_eq!(list.len(), list.capacity());

    assert_eq!(list.peek_front(), Some(&1));

    let first = values(&list);
    assert_eq!(&first[..3], &[1, 0, 2]);

    let link = find_link(&list, 0);

    assert_eq!(list.get(&link), Some(&0));

    assert_ne!(list.peek_back(), Some(&0));

    assert_eq!(list.len(), list.capacity());

    list.shift_push_back(&link).unwrap();

    assert_eq!(list.peek_back(), Some(&0));

    assert_eq!(list.len(), list.capacity());
}

#[test]
fn test_array_list_invariants() {
    _test_list_invariants(array_backed_list::<(), TEST_CAPACITY>());
}

#[test]
fn array_test_array_list_invariants() {
    _test_list_invariants(impls::array_backed_list::<(), TEST_CAPACITY>());
}

#[test]
fn test_array_list_front_push_peek_pop_consistency() {
    _test_list_front_push_peek_pop_consistency(array_backed_list::<i32, TEST_CAPACITY>());
}

#[test]
fn array_test_array_list_front_push_peek_pop_consistency() {
    _test_list_front_push_peek_pop_consistency(impls::array_backed_list::<i32, TEST_CAPACITY>());
}

#[test]
fn test_array_list_back_push_peek_pop_consistency() {
    _test_list_back_push_peek_pop_consistency(array_backed_list::<i32, TEST_CAPACITY>());
}

#[test]
fn array_test_array_list_back_push_peek_pop_consistency() {
    _test_list_back_push_peek_pop_consistency(impls::array_backed_list::<i32, TEST_CAPACITY>());
}

#[test]
fn test_array_list_remove() {
    _test_list_remove(array_backed_list::<i32, TEST_CAPACITY>());
}

#[test]
fn array_test_array_list_remove() {
    _test_list_remove(impls::array_backed_list::<i32, TEST_CAPACITY>());
}

#[test]
fn test_array_list_shift_push() {
    _test_list_shift_push(array_backed_list::<i32, TEST_CAPACITY>());
}

#[test]
fn array_test_array_list_shift_push() {
    _test_list_shift_push(impls::array_backed_list::<i32, TEST_CAPACITY>());
}

#[test]
fn test_alloc_vec_list_invariants() {
    _test_list_invariants(alloc_vec_backed_list::<()>(TEST_CAPACITY));
}

#[test]
fn test_alloc_vec_list_front_push_peek_pop_consistency() {
    _test_list_front_push_peek_pop_consistency(alloc_vec_backed_list::<i32>(TEST_CAPACITY));
}

#[test]
fn test_alloc_vec_list_back_push_peek_pop_consistency() {
    _test_list_back_push_peek_pop_consistency(alloc_vec_backed_list::<i32>(TEST_CAPACITY));
}

#[test]
fn test_alloc_vec_list_remove() {
    _test_list_remove(alloc_vec_backed_list::<i32>(TEST_CAPACITY));
}

#[test]
fn test_alloc_vec_list_shift_push() {
    _test_list_shift_push(alloc_vec_backed_list::<i32>(TEST_CAPACITY));
}

#[test]
fn test_allocvec_list_invariants() {
    _test_list_invariants(alloc_vec_backed_list::<()>(TEST_CAPACITY));
}

#[test]
fn test_allocvec_list_front_push_peek_pop_consistency() {
    _test_list_front_push_peek_pop_consistency(alloc_vec_backed_list::<i32>(TEST_CAPACITY));
}

#[test]
fn test_allocvec_list_back_push_peek_pop_consistency() {
    _test_list_back_push_peek_pop_consistency(alloc_vec_backed_list::<i32>(TEST_CAPACITY));
}

#[test]
fn test_allocvec_list_remove() {
    _test_list_remove(alloc_vec_backed_list::<i32>(TEST_CAPACITY));
}

#[test]
fn test_allocvec_list_shift_push() {
    _test_list_shift_push(alloc_vec_backed_list::<i32>(TEST_CAPACITY));
}

#[test]
fn node_with_value_is_detached() {
    let node = Node::with_value(5);
    assert_eq!(
        node,
        Node {
            value: 5,
            next: None,
            prev: None
        }
    );
    assert_eq!(Node::<i32>::default(), Node::with_value(0));
}

#[test]
fn list_forward_and_backward_meet_the_same_elements() {
    let mut list = alloc_vec_backed_list::<i32>(6);
    let mut pushed = Vec::new();
    for value in [4, 8, 15, 16, 23, 42] {
        pushed.push(list.push_back(value).unwrap());
    }
    let forward = items(&list);
    assert_eq!(forward.len(), list.len());
    let links: Vec<Link> = forward.iter().map(|(link, _)| *link).collect();
    assert_eq!(links, pushed);
    assert_eq!(values(&list), vec![4, 8, 15, 16, 23, 42]);
    let mut backward = Vec::new();
    while let Some(value) = list.pop_back() {
        backward.push(value);
    }
    backward.reverse();
    assert_eq!(backward, vec![4, 8, 15, 16, 23, 42]);
    assert_eq!(list.len(), 0);
}

#[test]
fn list_shift_to_back_of_the_tail_changes_nothing() {
    let mut list = alloc_vec_backed_list::<i32>(4);
    for value in [1, 2, 3] {
        list.push_back(value).unwrap();
    }
    let before = items(&list);
    let tail = before[2].0;
    assert_eq!(list.shift_push_back(&tail), Some(()));
    assert_eq!(items(&list), before);
    assert_eq!(list.len(), 3);
    assert_eq!(list.shift_push_back(&tail), Some(()));
    assert_eq!(items(&list), before);
    assert_eq!(list.peek_back(), Some(&3));
    assert_eq!(list.peek_front(), Some(&1));
}

#[test]
fn list_shift_to_front_of_the_head_changes_nothing() {
    let mut list = alloc_vec_backed_list::<i32>(4);
    for value in [1, 2, 3] {
        list.push_back(value).unwrap();
    }
    let before = items(&list);
    let head = before[0].0;
    assert_eq!(list.shift_push_front(&head), Some(()));
    assert_eq!(items(&list), before);
}

#[test]
fn list_shift_of_the_only_element() {
    let mut list = alloc_vec_backed_list::<i32>(1);
    let only = list.push_back(9).unwrap();
    assert_eq!(list.shift_push_back(&only), Some(()));
    assert_eq!(list.shift_push_front(&only), Some(()));
    assert_eq!(values(&list), vec![9]);
    assert_eq!(list.pop_front(), Some(9));
    assert_eq!(list.pop_front(), None);
    assert!(list.is_empty());
}

#[test]
fn list_shift_of_the_head_then_removals() {
    let mut list = alloc_vec_backed_list::<i32>(2);
    let a = list.push_back(1).unwrap();
    let b = list.push_back(2).unwrap();
    assert_eq!(list.shift_push_back(&a), Some(()));
    assert_eq!(values(&list), vec![2, 1]);
    assert_eq!(list.remove(&b), Some(2));
    assert_eq!(values(&list), vec![1]);
    assert_eq!(list.remove(&a), Some(1));
    assert!(list.is_empty());
    assert_eq!(list.peek_front(), None);
    assert_eq!(list.peek_back(), None);
}

#[test]
fn list_shift_keeps_the_link_valid() {
    let mut list = alloc_vec_backed_list::<i32>(3);
    let a = list.push_back(1).unwrap();
    let b = list.push_back(2).unwrap();
    let c = list.push_back(3).unwrap();
    assert_eq!(list.shift_push_back(&b), Some(()));
    assert_eq!(values(&list), vec![1, 3, 2]);
    assert_eq!(list.get(&b), Some(&2));
    assert_eq!(list.shift_push_front(&c), Some(()));
    assert_eq!(values(&list), vec![3, 1, 2]);
    assert_eq!(list.get(&a), Some(&1));
    assert_eq!(list.get(&c), Some(&3));
    assert_eq!(list.len(), 3);
}

#[test]
fn list_stale_link_is_refused() {
    let mut list = alloc_vec_backed_list::<i32>(2);
    let a = list.push_back(1).unwrap();
    list.push_back(2).unwrap();
    assert_eq!(list.remove(&a), Some(1));
    assert_eq!(list.shift_push_back(&a), None);
    assert_eq!(list.shift_push_front(&a), None);
    assert_eq!(list.remove(&a), None);
    assert_eq!(list.get(&a), None);
    assert!(list.get_mut(&a).is_none());
    assert_eq!(values(&list), vec![2]);
    let c = list.push_back(3).unwrap();
    assert_eq!(c.index.idx, a.index.idx);
    assert_eq!(list.get(&a), None);
    assert_eq!(list.get(&c), Some(&3));
}

#[test]
fn list_get_mut_replaces_one_value() {
    let mut list = alloc_vec_backed_list::<i32>(3);
    list.push_back(1).unwrap();
    let b = list.push_back(2).unwrap();
    list.push_back(3).unwrap();
    *list.get_mut(&b).unwrap() = 20;
    assert_eq!(values(&list), vec![1, 20, 3]);
}

#[test]
fn list_push_returns_the_link_of_the_next_free_slot() {
    let mut list = alloc_vec_backed_list::<i32>(3);
    let a = list.push_back(1).unwrap();
    let b = list.push_front(2).unwrap();
    assert_eq!((a.index.idx, a.index.generation), (0, 0));
    assert_eq!((b.index.idx, b.index.generation), (1, 1));
    assert_eq!(list.pop_back(), Some(1));
    let c = list.push_back(3).unwrap();
    assert_eq!((c.index.idx, c.index.generation), (0, 2));
    assert_eq!(values(&list), vec![2, 3]);
}

#[test]
fn list_reserve_with_room_changes_nothing() {
    let mut list = array_backed_list::<i32, 4>();
    list.push_back(1).unwrap();
    assert!(list.reserve(3).is_ok());
    assert_eq!(list.capacity(), 4);
    match list.reserve(4) {
        Err(ListError::ArenaError(ArenaError::VectorError(_))) => {}
        _ => unreachable!("A full array reserved room"),
    };
    assert_eq!(list.capacity(), 4);
    assert_eq!(values(&list), vec![1]);
}

#[test]
fn list_reserve_grows_by_additional() {
    let mut list = alloc_vec_backed_list::<i32>(2);
    list.push_back(1).unwrap();
    assert!(list.reserve(1).is_ok());
    assert_eq!(list.capacity(), 2);
    assert!(list.reserve(3).is_ok());
    assert_eq!(list.capacity(), 5);
    let next = list.push_back(2).unwrap();
    assert_eq!(next.index.idx, 2);
    assert_eq!(values(&list), vec![1, 2]);
}

#[test]
fn list_clear_makes_it_reusable() {
    let mut list = array_backed_list::<i32, 2>();
    let a = list.push_back(1).unwrap();
    list.push_back(2).unwrap();
    list.clear().unwrap();
    assert!(list.is_empty());
    assert_eq!(list.len(), 0);
    assert_eq!(list.capacity(), 2);
    let again = list.push_back(5).unwrap();
    assert_eq!(again, a);
    assert_eq!(values(&list), vec![5]);
}

#[test]
fn list_of_three_places_passes_the_same_walks() {
    _test_list_front_push_peek_pop_consistency(array_backed_list::<i32, 3>());
    _test_list_back_push_peek_pop_consistency(array_backed_list::<i32, 3>());
    _test_list_remove(array_backed_list::<i32, 3>());
    _test_list_shift_push(array_backed_list::<i32, 3>());
}
