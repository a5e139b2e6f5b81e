use generational_cache::vector::impls::alloc_vec::AllocVec;
use generational_cache::vector::impls::array::{Array, ArrayError};
use generational_cache::vector::Vector;

const TEST_CAPACITY: usize = 1 << 4;

fn _test_vector_consistency<V: Vector<usize>>(mut vector: V) {
    vector.clear();

    let cap_0 = vector.capacity();

    vector.reserve(vector.capacity()).unwrap();

    let cap_1 = vector.capacity();

    assert_eq!(cap_0, cap_1);

    assert!(vector.is_empty());

    for i in 0..vector.capacity() {
        vector.push(i).unwrap();
    }

    assert_eq!(vector.len(), vector.capacity());

    for j in 0..vector.len() {
        assert_eq!(vector.get(j), Some(&j));
    }

    let cap_0 = vector.capacity();

    let res = vector.push(42);

    let cap_1 = vector.capacity();

    if cap_0 == cap_1 {
        assert!(res.is_err());
    } else {
        assert!(cap_1 > cap_0, "Capacity decreased on push().");
        assert!(res.is_ok());
    }

    let cap_0 = vector.capacity();

    vector.clear();

    let cap_1 = vector.capacity();

    assert!(cap_0 == cap_1, "Capacity changed on clear().");

    assert!(vector.is_empty());

    const ADDITIONAL: usize = 5;

    let result = vector.reserve(ADDITIONAL);

    if result.is_err() {
        return;
    }

    for i in 0..ADDITIONAL {
        vector.push(i).unwrap();
    }
}

#[test]
fn test_array_vector_consitency() {
    _test_vector_consistency(Array::<usize, TEST_CAPACITY>::new());
}

#[test]
fn array_test_array_vector_consitency() {
    _test_vector_consistency(Array::<usize, TEST_CAPACITY>::default());
}

#[test]
fn array_over_a_given_buffer_is_consistent() {
    _test_vector_consistency(Array::<usize, TEST_CAPACITY>::with_buffer([7; TEST_CAPACITY]));
}

#[test]
fn test_alloc_vec_vector_consitency() {
    _test_vector_consistency(AllocVec::<usize>::with_capacity(TEST_CAPACITY));
}

#[test]
fn test_allocvec_vector_consitency() {
    _test_vector_consistency(AllocVec::<usize>::new());
}

#[test]
fn array_push_fails_exactly_when_full() {
    let mut array = Array::<u8, 2>::new();
    assert_eq!(array.capacity(), 2);
    assert_eq!(array.push(10), Ok(()));
    assert_eq!(array.push(20), Ok(()));
    assert_eq!(array.push(30), Err(ArrayError::OutOfMemory));
    assert_eq!(array.len(), 2);
    assert_eq!(array.get(0), Some(&10));
    assert_eq!(array.get(1), Some(&20));
    assert_eq!(array.get(2), None);
}

#[test]
fn array_reserve_succeeds_up_to_the_free_room() {
    let mut array = Array::<u8, 4>::new();
    array.push(1).unwrap();
    assert_eq!(array.reserve(3), Ok(()));
    assert_eq!(array.reserve(4), Err(ArrayError::OutOfMemory));
    assert_eq!(array.reserve(0), Ok(()));
    assert_eq!(array.capacity(), 4);
    assert_eq!(array.len(), 1);
}

#[test]
fn array_with_buffer_starts_empty() {
    let array = Array::<u8, 3>::with_buffer([9, 9, 9]);
    assert!(array.is_empty());
    assert_eq!(array.len(), 0);
    assert_eq!(array.get(0), None);
}

#[test]
fn array_get_mut_writes_one_item() {
    let mut array = Array::<u8, 3>::new();
    array.push(1).unwrap();
    array.push(2).unwrap();
    *array.get_mut(1).unwrap() = 7;
    assert_eq!(array.get(0), Some(&1));
    assert_eq!(array.get(1), Some(&7));
    assert!(array.get_mut(2).is_none());
}

#[test]
fn array_clear_keeps_capacity() {
    let mut array = Array::<u8, 2>::new();
    array.push(1).unwrap();
    array.clear();
    assert_eq!(array.len(), 0);
    assert_eq!(array.capacity(), 2);
    assert_eq!(array.push(5), Ok(()));
    assert_eq!(array.get(0), Some(&5));
}

#[test]
fn alloc_vec_grows_by_one_on_a_full_push() {
    let mut vec = AllocVec::<u8>::with_capacity(1);
    assert_eq!(vec.capacity(), 1);
    vec.push(1).unwrap();
    assert_eq!(vec.capacity(), 1);
    vec.push(2).unwrap();
    assert_eq!(vec.capacity(), 2);
    assert_eq!(vec.len(), 2);
    assert_eq!(vec.get(1), Some(&2));
}

#[test]
fn alloc_vec_reserve_raises_capacity_to_len_plus_additional() {
    let mut vec = AllocVec::<u8>::new();
    assert_eq!(vec.capacity(), 0);
    vec.push(1).unwrap();
    vec.reserve(5).unwrap();
    assert_eq!(vec.capacity(), 6);
    vec.reserve(2).unwrap();
    assert_eq!(vec.capacity(), 6);
    assert_eq!(vec.len(), 1);
}

#[test]
fn alloc_vec_get_mut_and_clear() {
    let mut vec = AllocVec::<u8>::with_capacity(4);
    vec.push(1).unwrap();
    *vec.get_mut(0).unwrap() = 3;
    assert_eq!(vec.get(0), Some(&3));
    assert!(vec.get_mut(1).is_none());
    vec.clear();
    assert!(vec.is_empty());
    assert_eq!(vec.capacity(), 4);
}
