use stackbuf::ContainerError;
use stackbuf::String;

#[test]
fn push_str_overflow_leaves_buffer_unchanged() {
    let mut s = String::<4>::from("abc").unwrap();
    let r = s.push_str("xy");
    assert_eq!(r, Err(ContainerError::CapacityExceeded));
    assert_eq!(s.as_str(), "abc");
    assert_eq!(s.as_str().len(), 3);
}

#[test]
fn push_multibyte_into_one_free_byte_is_rejected() {
    let mut s = String::<4>::from("abc").unwrap();
    let r = s.push('ö');
    assert_eq!(r, Err(ContainerError::CapacityExceeded));
    assert_eq!(s.as_str(), "abc");
    assert_eq!(s.as_str().len(), 3);
}

#[test]
fn push_four_byte_codepoint() {
    let mut s = String::<8>::new();
    s.push('𝄞').unwrap();
    assert_eq!(s.as_str(), "𝄞");
    assert_eq!(s.as_str().len(), 4);
    assert_eq!(s.pop(), Some('𝄞'));
    assert_eq!(s.as_str(), "");
}

#[test]
fn pop_returns_codepoints_in_reverse() {
    let mut s = String::<8>::from("aö").unwrap();
    assert_eq!(s.pop(), Some('ö'));
    assert_eq!(s.pop(), Some('a'));
    assert_eq!(s.pop(), None);
}

#[test]
fn insert_and_remove_are_inverse() {
    let mut s = String::<16>::from("hällo").unwrap();
    s.insert(3, 'ü').unwrap();
    assert_eq!(s.as_str(), "häüllo");
    assert_eq!(s.remove(3), Ok('ü'));
    assert_eq!(s.as_str(), "hällo");
}

#[test]
fn insert_errors() {
    let mut s = String::<4>::from("ab").unwrap();
    assert_eq!(s.insert(3, 'x'), Err(ContainerError::IndexOutOfBounds));
    let mut t = String::<8>::from("ö").unwrap();
    assert_eq!(t.insert(1, 'x'), Err(ContainerError::IndexOutOfBounds));
    let mut u = String::<3>::from("abc").unwrap();
    assert_eq!(u.insert(1, 'x'), Err(ContainerError::CapacityExceeded));
    assert_eq!(u.as_str(), "abc");
}

#[test]
fn remove_errors() {
    let mut s = String::<8>::from("ö").unwrap();
    assert_eq!(s.remove(1), Err(ContainerError::IndexOutOfBounds));
    assert_eq!(s.remove(2), Err(ContainerError::IndexOutOfBounds));
    assert_eq!(s.as_str(), "ö");
}

#[test]
fn drain_takes_the_range_out() {
    let mut s = String::<8>::from("hello").unwrap();
    let d = s.drain(1..3).unwrap();
    assert_eq!(d.as_str(), "el");
    assert_eq!(s.as_str(), "hlo");
    assert_eq!(s.drain(2..1).err().unwrap(), ContainerError::IndexOutOfBounds);
    let mut t = String::<8>::from("ö").unwrap();
    assert_eq!(t.drain(1..2).err().unwrap(), ContainerError::IndexOutOfBounds);
}

#[test]
fn truncate_shortens_only() {
    let mut s = String::<8>::from("hello").unwrap();
    s.truncate(10);
    assert_eq!(s.as_str(), "hello");
    s.truncate(2);
    assert_eq!(s.as_str(), "he");
    s.clear();
    assert_eq!(s.as_str(), "");
}

#[test]
fn extend_from_within_appends_the_range() {
    let mut s = String::<4>::from("ab").unwrap();
    s.extend_from_within(0..2).unwrap();
    assert_eq!(s.as_str(), "abab");
    assert_eq!(
        s.extend_from_within(0..2).err().unwrap(),
        ContainerError::CapacityExceeded
    );
    assert_eq!(
        s.extend_from_within(3..1).err().unwrap(),
        ContainerError::IndexOutOfBounds
    );
}

#[test]
fn get_checks_bounds_and_boundaries() {
    let s = String::<8>::from("hällo").unwrap();
    assert_eq!(s.get(1..3), Some("ä"));
    assert_eq!(s.get(1..2), None);
    assert_eq!(s.get(0..7), None);
    assert_eq!(s.get(3..2), None);
    assert_eq!(s.get_unchecked(0..1), "h");
}

#[test]
fn repeat_builds_copies() {
    let s = String::<8>::from("ab").unwrap();
    assert_eq!(s.repeat(2).unwrap().as_str(), "abab");
    assert_eq!(s.repeat(0).unwrap().as_str(), "");
    assert_eq!(s.repeat(5).err().unwrap(), ContainerError::CapacityExceeded);
}

#[test]
fn find_rfind_contains() {
    let s = String::<8>::from("abcabc").unwrap();
    assert_eq!(s.find("bc"), Some(1));
    assert_eq!(s.rfind("bc"), Some(4));
    assert_eq!(s.find(""), Some(0));
    assert_eq!(s.rfind(""), Some(6));
    assert_eq!(s.find("zz"), None);
    assert!(s.contains("ca"));
    assert!(!s.contains("zz"));
    assert!(s.starts_with("abc"));
    assert!(!s.starts_with("bc"));
    assert!(s.starts_with(""));
}

#[test]
fn replace_substitutes_every_occurrence() {
    let s = String::<8>::from("aaa").unwrap();
    assert_eq!(s.replace("a", "bb").unwrap().as_str(), "bbbbbb");
    let t = String::<16>::from("abcabc").unwrap();
    assert_eq!(t.replace("bc", "x").unwrap().as_str(), "axax");
    let u = String::<4>::from("aaa").unwrap();
    assert_eq!(u.replace("a", "bb").err().unwrap(), ContainerError::CapacityExceeded);
}

#[test]
fn replacen_stops_after_n_substitutions() {
    let s = String::<8>::from("aaa").unwrap();
    assert_eq!(s.replacen("a", "bb", 2).unwrap().as_str(), "bbbba");
    assert_eq!(s.replacen("a", "bb", 0).unwrap().as_str(), "aaa");
}

#[test]
fn write_str_truncates_at_a_codepoint_boundary() {
    let mut s = String::<4>::from("ab").unwrap();
    let r = s.write_str("öx");
    assert_eq!(r, Err(ContainerError::CapacityExceeded));
    assert_eq!(s.as_str(), "abö");
    let mut t = String::<8>::from("ab").unwrap();
    assert_eq!(t.write_str("öx"), Ok(()));
    assert_eq!(t.as_str(), "aböx");
    let mut u = String::<3>::from("ab").unwrap();
    assert_eq!(u.write_str("öx"), Err(ContainerError::CapacityExceeded));
    assert_eq!(u.as_str(), "ab");
}

#[test]
fn ascii_case_conversions() {
    let mut s = String::<8>::from("AbC1ö").unwrap();
    s.make_ascii_lowercase();
    assert_eq!(s.as_str(), "abc1ö");
    s.make_ascii_uppercase();
    assert_eq!(s.as_str(), "ABC1ö");
    let t = String::<8>::from("AbC1ö").unwrap();
    assert_eq!(t.to_ascii_lowercase().as_str(), "abc1ö");
    assert_eq!(t.to_ascii_uppercase().as_str(), "ABC1ö");
    assert_eq!(t.as_str(), "AbC1ö");
}

#[test]
fn retain_keeps_matching_codepoints() {
    let mut s = String::<8>::from("a1ö2").unwrap();
    s.retain(|c: char| c.is_ascii_digit());
    assert_eq!(s.as_str(), "12");
}

#[test]
fn insert_str_splices_text() {
    let mut s = String::<8>::from("ad").unwrap();
    s.insert_str(1, "bc").unwrap();
    assert_eq!(s.as_str(), "abcd");
    assert_eq!(s.insert_str(9, "x").err().unwrap(), ContainerError::IndexOutOfBounds);
    assert_eq!(
        s.insert_str(1, "toolong").err().unwrap(),
        ContainerError::CapacityExceeded
    );
}

#[test]
fn as_mut_str_edits_in_place() {
    let mut s = String::<8>::from("abc").unwrap();
    s.as_mut_str().make_ascii_uppercase();
    assert_eq!(s.as_str(), "ABC");
}

#[test]
fn from_utf8_validates_bytes() {
    let s = String::<8>::from_utf8(&[0x61, 0xC3, 0xB6]).unwrap();
    assert_eq!(s.as_str(), "aö");
    let bad = [
        &[0xFF_u8][..],
        &[0xC3][..],
        &[0xC0, 0x80][..],
        &[0xED, 0xA0, 0x80][..],
        &[0xF4, 0x90, 0x80, 0x80][..],
        &[0x61, 0x80][..],
    ];
    for raw in bad {
        assert_eq!(
            String::<8>::from_utf8(raw).err().unwrap(),
            ContainerError::InvalidEncoding
        );
    }
    assert_eq!(
        String::<2>::from_utf8(&[0x61, 0x62, 0x63]).err().unwrap(),
        ContainerError::CapacityExceeded
    );
    let g = String::<8>::from_utf8(&[0xF0, 0x9D, 0x84, 0x9E]).unwrap();
    assert_eq!(g.as_str(), "\u{1D11E}");
}
