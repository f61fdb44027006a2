use stackbuf::ContainerError;
use stackbuf::String;
use stackbuf::Vec;
use stackbuf::DEFAULT_BUFFER_SIZE;

#[test]
fn test_new() {
    let mut s = String::<64>::new();
    s.push('a').unwrap();
    s.push('b').unwrap();
    s.push('ö').unwrap();
    s.insert(1, 'x').unwrap();
    assert_eq!(s.as_str(), "axbö");
    s.push_str("bchahahahaha").unwrap();
    assert_eq!(s.as_str(), "axböbchahahahaha");
    assert_eq!(s.capacity(), 64);
}

#[test]
fn test_vec() {
    let mut v = Vec::<i32, DEFAULT_BUFFER_SIZE>::new();
    for x in [1, 2, 3, 4, 5] {
        v.push(x).unwrap();
    }
    v.insert(2, 42).unwrap();
    assert_eq!(v.as_slice(), &[1, 2, 42, 3, 4, 5]);
    assert_eq!(v.remove(2), Ok(42));
    assert_eq!(v.as_slice(), &[1, 2, 3, 4, 5]);
}

#[test]
fn test_string() {
    let mut s = String::<DEFAULT_BUFFER_SIZE>::from("abcdef").unwrap();
    assert_eq!(s.as_str(), "abcdef");
    s.insert(2, 'x').unwrap();
    assert_eq!(s.as_str(), "abxcdef");
    assert_eq!(s.remove(2), Ok('x'));
    assert_eq!(s.as_str(), "abcdef");
}

#[test]
fn default_is_empty() {
    let s = String::<8>::default();
    assert_eq!(s.as_str(), "");
    assert_eq!(DEFAULT_BUFFER_SIZE, 4096);
}

#[test]
fn from_rejects_oversized_input() {
    let r = String::<4>::from("hello");
    assert_eq!(r.err().unwrap(), ContainerError::CapacityExceeded);
    let ok = String::<5>::from("hello").unwrap();
    assert_eq!(ok.as_str(), "hello");
}

#[test]
fn equality_compares_only_the_occupied_prefix() {
    let mut a = String::<8>::from("abcd").unwrap();
    let b = String::<8>::from("ab").unwrap();
    assert!(a != b);
    a.truncate(2);
    assert!(a == b);
    let mut v = Vec::<i32, 4>::new();
    v.push(7).unwrap();
    v.push(9).unwrap();
    v.pop();
    let mut w = Vec::<i32, 4>::new();
    w.push(7).unwrap();
    assert!(v == w);
    w.push(8).unwrap();
    assert!(v != w);
}
