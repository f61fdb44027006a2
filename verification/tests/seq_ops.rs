use stackbuf::ContainerError;
use stackbuf::Vec;

#[test]
fn dedup_removes_duplicates_anywhere() {
    let mut v = Vec::<i32, 8>::new();
    for x in [1, 2, 3, 2, 1] {
        v.push(x).unwrap();
    }
    v.dedup();
    assert_eq!(v.as_slice(), &[1, 2, 3]);
}

#[test]
fn swap_remove_moves_the_last_element_in() {
    let mut v = Vec::<i32, 8>::new();
    for x in [10, 20, 30, 40] {
        v.push(x).unwrap();
    }
    assert_eq!(v.swap_remove(1), Ok(20));
    assert_eq!(v.as_slice(), &[10, 40, 30]);
    assert_eq!(v.len(), 3);
    assert_eq!(v.swap_remove(3), Err(ContainerError::IndexOutOfBounds));
}

#[test]
fn push_to_capacity_then_reject() {
    let mut v = Vec::<u8, 2>::new();
    assert_eq!(v.push(1), Ok(()));
    assert_eq!(v.append(2), Ok(()));
    assert_eq!(v.push(3), Err(ContainerError::CapacityExceeded));
    assert_eq!(v.as_slice(), &[1, 2]);
    assert_eq!(v.try_push(4), Err(4));
    assert!(!v.push_within_capacity(5));
    assert_eq!(v.as_slice(), &[1, 2]);
}

#[test]
fn pop_and_get() {
    let mut v = Vec::<i32, 4>::new();
    assert_eq!(v.pop(), None);
    v.push(7).unwrap();
    v.push(8).unwrap();
    assert_eq!(v.get(0), Some(&7));
    assert_eq!(v.get(2), None);
    assert_eq!(v.pop(), Some(8));
    assert_eq!(v.as_slice(), &[7]);
}

#[test]
fn insert_remove_and_errors() {
    let mut v = Vec::<i32, 3>::new();
    v.push(1).unwrap();
    v.push(3).unwrap();
    v.insert(1, 2).unwrap();
    assert_eq!(v.as_slice(), &[1, 2, 3]);
    assert_eq!(v.insert(0, 9), Err(ContainerError::CapacityExceeded));
    assert_eq!(v.remove(0), Ok(1));
    assert_eq!(v.insert(9, 9), Err(ContainerError::IndexOutOfBounds));
    assert_eq!(v.remove(9), Err(ContainerError::IndexOutOfBounds));
    assert_eq!(v.as_slice(), &[2, 3]);
}

#[test]
fn insert_many_splices_a_slice() {
    let mut v = Vec::<i32, 6>::new();
    v.push(1).unwrap();
    v.push(4).unwrap();
    v.insert_many(1, &[2, 3]).unwrap();
    assert_eq!(v.as_slice(), &[1, 2, 3, 4]);
    assert_eq!(
        v.insert_many(0, &[7, 8, 9]),
        Err(ContainerError::CapacityExceeded)
    );
    assert_eq!(v.insert_many(9, &[7]), Err(ContainerError::IndexOutOfBounds));
}

#[test]
fn resize_grows_and_shrinks() {
    let mut v = Vec::<i32, 6>::new();
    v.push(1).unwrap();
    v.resize(4, 9).unwrap();
    assert_eq!(v.as_slice(), &[1, 9, 9, 9]);
    v.resize(2, 0).unwrap();
    assert_eq!(v.as_slice(), &[1, 9]);
    assert_eq!(v.resize(7, 0), Err(ContainerError::CapacityExceeded));
    assert_eq!(v.as_slice(), &[1, 9]);
}

#[test]
fn resize_with_draws_from_the_generator() {
    let mut v = Vec::<i32, 6>::new();
    v.resize_with(3, || 5).unwrap();
    assert_eq!(v.as_slice(), &[5, 5, 5]);
    v.resize_with(1, || 0).unwrap();
    assert_eq!(v.as_slice(), &[5]);
}

#[test]
fn extend_from_slice_is_all_or_nothing() {
    let mut v = Vec::<i32, 4>::new();
    v.extend_from_slice(&[1, 2]).unwrap();
    assert_eq!(v.as_slice(), &[1, 2]);
    assert_eq!(
        v.extend_from_slice(&[3, 4, 5]),
        Err(ContainerError::CapacityExceeded)
    );
    assert_eq!(v.as_slice(), &[1, 2]);
}

#[test]
fn extend_from_within_copies_a_range() {
    let mut v = Vec::<i32, 6>::new();
    v.extend_from_slice(&[1, 2, 3]).unwrap();
    v.extend_from_within(1..3).unwrap();
    assert_eq!(v.as_slice(), &[1, 2, 3, 2, 3]);
    assert_eq!(
        v.extend_from_within(0..4),
        Err(ContainerError::CapacityExceeded)
    );
    assert_eq!(
        v.extend_from_within(4..2),
        Err(ContainerError::IndexOutOfBounds)
    );
}

#[test]
fn split_off_moves_the_tail() {
    let mut v = Vec::<i32, 6>::new();
    v.extend_from_slice(&[1, 2, 3, 4]).unwrap();
    let tail = v.split_off(1).unwrap();
    assert_eq!(v.as_slice(), &[1]);
    assert_eq!(tail.as_slice(), &[2, 3, 4]);
    assert_eq!(v.split_off(5).err().unwrap(), ContainerError::IndexOutOfBounds);
}

#[test]
fn drain_empties_and_returns_contents() {
    let mut v = Vec::<i32, 4>::new();
    v.extend_from_slice(&[1, 2]).unwrap();
    let d = v.drain();
    assert_eq!(d.as_slice(), &[1, 2]);
    assert!(v.is_empty());
}

#[test]
fn contains_and_extract() {
    let mut v = Vec::<i32, 6>::new();
    v.extend_from_slice(&[4, 5, 6, 5]).unwrap();
    assert!(v.contains(&5));
    assert!(!v.contains(&7));
    assert_eq!(v.extract(&5), Some(5));
    assert_eq!(v.as_slice(), &[4, 6, 5]);
    assert_eq!(v.extract(&7), None);
}

#[test]
fn extract_if_takes_the_first_match() {
    let mut v = Vec::<i32, 6>::new();
    v.extend_from_slice(&[1, 4, 6, 3]).unwrap();
    assert_eq!(v.extract_if(|x: &i32| *x % 2 == 0), Some(4));
    assert_eq!(v.as_slice(), &[1, 6, 3]);
    assert_eq!(v.extract_if(|x: &i32| *x > 9), None);
}

#[test]
fn retain_keeps_matching_elements() {
    let mut v = Vec::<i32, 8>::new();
    v.extend_from_slice(&[1, 2, 3, 4, 5]).unwrap();
    v.retain(|x: &i32| *x % 2 == 1);
    assert_eq!(v.as_slice(), &[1, 3, 5]);
    let mut w = Vec::<i32, 8>::new();
    w.extend_from_slice(&[1, 2, 3]).unwrap();
    w.retain_mut(|x: &i32| *x != 2);
    assert_eq!(w.as_slice(), &[1, 3]);
}

#[test]
fn dedup_by_uses_the_predicate() {
    let mut v = Vec::<i32, 8>::new();
    v.extend_from_slice(&[11, 21, 32, 41, 12]).unwrap();
    v.dedup_by(|a: &i32, b: &i32| a % 10 == b % 10);
    assert_eq!(v.as_slice(), &[11, 32]);
}

#[test]
fn dedup_by_key_uses_the_key() {
    let mut v = Vec::<i32, 8>::new();
    v.extend_from_slice(&[11, 21, 32, 41, 12]).unwrap();
    v.dedup_by_key(|x: &i32| *x % 10);
    assert_eq!(v.as_slice(), &[11, 32]);
}

#[test]
fn raw_parts_round_trip() {
    let v = Vec::<i32, 3>::from_raw_parts([7, 8, 9], 2);
    assert_eq!(v.as_slice(), &[7, 8]);
    let w = Vec::<i32, 3>::from_raw_parts_in([7, 8, 9], 2, 3);
    assert_eq!(w.capacity(), 3);
    assert_eq!(w.spare_capacity_mut(), 1);
    let (items, len) = v.into_raw_parts();
    assert_eq!(items, [7, 8, 9]);
    assert_eq!(len, 2);
    let (items2, len2) = w.into_raw_parts_in(3);
    assert_eq!((items2, len2), ([7, 8, 9], 2));
    let u = Vec::<i32, 3>::from_raw_parts([1, 2, 3], 3);
    assert_eq!(u.into_flattened(), [1, 2, 3]);
}

#[test]
fn set_len_and_truncate() {
    let mut v = Vec::<i32, 4>::new();
    v.extend_from_slice(&[1, 2, 3]).unwrap();
    v.truncate(5);
    assert_eq!(v.as_slice(), &[1, 2, 3]);
    v.truncate(1);
    assert_eq!(v.as_slice(), &[1]);
    v.set_len(2);
    assert_eq!(v.len(), 2);
    assert_eq!(v.as_slice()[0], 1);
    v.clear();
    assert!(v.is_empty());
}

#[test]
fn as_mut_slice_edits_in_place() {
    let mut v = Vec::<i32, 4>::new();
    v.extend_from_slice(&[1, 2, 3]).unwrap();
    v.as_mut_slice()[0] = 9;
    assert_eq!(v.as_slice(), &[9, 2, 3]);
}
