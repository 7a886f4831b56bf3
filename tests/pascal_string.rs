use std::borrow::Borrow;
use std::fmt::Write;
use std::mem;

use smart_string::pascal_string::{InsertError, RemoveError, TryFromBytesError, TryFromStrError};
use smart_string::PascalString;

#[test]
fn pascal_string_test_eq() {
    let s = String::from("abc");
    let ps = PascalString::<4>::try_from("abc").unwrap();

    assert_eq!(ps, s);

    let s = String::from("abcd");
    let mut ps = PascalString::<4>::new();
    ps.write_str("abcd").unwrap();

    assert_eq!(ps, s);
}

#[test]
fn pascal_string_test_ord() {
    let ps1 = PascalString::<4>::try_from("abc").unwrap();
    let ps2 = PascalString::<4>::try_from("abcd").unwrap();

    assert!(ps1 < ps2);
    assert!(ps1 <= ps2);
    assert!(ps2 > ps1);
    assert!(ps2 >= ps1);
}

#[test]
fn pascal_string_test_size() {
    assert_eq!(mem::size_of::<PascalString<0>>(), 1);
    assert_eq!(mem::size_of::<PascalString<1>>(), 2);
    assert_eq!(mem::size_of::<PascalString<2>>(), 3);
    assert_eq!(mem::size_of::<PascalString<3>>(), 4);
    assert_eq!(mem::size_of::<PascalString<4>>(), 5);
}

#[test]
fn pascal_string_test_deref() {
    let ps = PascalString::<3>::try_from("abc").unwrap();
    let map: std::collections::HashSet<_> = ["abc"].into_iter().collect();
    assert!(map.contains(&*ps));
}

#[test]
fn mod_test_eq() {
    let s = String::from("abc");
    let ps = PascalString::<4>::try_from("abc").unwrap();

    assert_eq!(ps, s);

    let s = String::from("abcd");
    let mut ps = PascalString::<4>::new();
    ps.write_str("abcd").unwrap();

    assert_eq!(ps, s);
}

#[test]
fn mod_test_ord() {
    let ps1 = PascalString::<4>::try_from("abc").unwrap();
    let ps2 = PascalString::<4>::try_from("abcd").unwrap();

    assert!(ps1 < ps2);
    assert!(ps1 <= ps2);
    assert!(ps2 > ps1);
    assert!(ps2 >= ps1);
}

#[test]
fn mod_test_size() {
    assert_eq!(mem::size_of::<PascalString<0>>(), 1);
    assert_eq!(mem::size_of::<PascalString<1>>(), 2);
    assert_eq!(mem::size_of::<PascalString<2>>(), 3);
    assert_eq!(mem::size_of::<PascalString<3>>(), 4);
    assert_eq!(mem::size_of::<PascalString<4>>(), 5);
}

#[test]
fn mod_test_deref() {
    let ps = PascalString::<3>::try_from("abc").unwrap();
    let map: std::collections::HashSet<_> = ["abc"].into_iter().collect();
    assert!(map.contains(&*ps));
}

#[test]
fn test_try_push_str_too_long_does_not_modify() {
    let mut ps = PascalString::<4>::try_from("ab").unwrap();
    assert_eq!(ps.as_str(), "ab");

    let err = ps.try_push_str("cde").unwrap_err();
    assert_eq!(err, TryFromStrError::TooLong);
    assert_eq!(ps.as_str(), "ab");
}

#[test]
fn test_try_push_char_too_long_does_not_modify() {
    let mut ps = PascalString::<3>::new();
    ps.try_push('€').unwrap(); // 3 bytes
    assert_eq!(ps.as_str(), "€");

    let err = ps.try_push('a').unwrap_err(); // +1 would overflow
    assert_eq!(err, TryFromStrError::TooLong);
    assert_eq!(ps.as_str(), "€");
}

#[test]
fn test_push_str_truncated_respects_utf8_boundary() {
    let mut ps = PascalString::<4>::new();

    // "€" is 3 bytes. "€a" is 4 bytes. "€ab" is 5 bytes.
    let remainder = ps.push_str_truncated("€ab");
    assert_eq!(ps.as_str(), "€a");
    assert_eq!(remainder, "b");
}

#[test]
fn test_from_str_truncated_truncates_on_boundary() {
    let ps = PascalString::<4>::from_str_truncated("€ab");
    assert_eq!(ps.as_str(), "€a");
    assert_eq!(ps.len(), 4);
}

#[test]
fn test_try_from_bytes_invalid_utf8() {
    let err = PascalString::<8>::try_from(&[0xff_u8][..]).unwrap_err();
    match err {
        TryFromBytesError::Utf8Error(_) => {}
        _ => panic!("expected Utf8Error, got: {err:?}"),
    }
}

#[test]
fn test_try_from_bytes_too_long() {
    let err = PascalString::<2>::try_from(&b"abc"[..]).unwrap_err();
    assert_eq!(err, TryFromBytesError::TooLong);
}

#[test]
fn test_capacity_zero_behavior() {
    let mut ps = PascalString::<0>::new();
    assert_eq!(ps.len(), 0);
    assert!(ps.is_empty());
    assert_eq!(ps.as_str(), "");

    assert_eq!(ps.try_push_str(""), Ok(()));
    assert_eq!(ps.try_push_str("a"), Err(TryFromStrError::TooLong));

    let rem = ps.push_str_truncated("hello");
    assert_eq!(ps.as_str(), "");
    assert_eq!(rem, "hello");

    assert_eq!(PascalString::<0>::from_str_truncated("hello").as_str(), "");
    assert!(PascalString::<0>::try_from("").is_ok());
    assert_eq!(
        PascalString::<0>::try_from("a").unwrap_err(),
        TryFromStrError::TooLong
    );
}

#[test]
fn test_into_inner_invariants() {
    let ps = PascalString::<4>::try_from("ab").unwrap();
    let (len, data) = ps.into_inner();
    assert_eq!(len, 2);
    assert_eq!(&data[..2], b"ab");
    assert_eq!(&data[2..], &[0, 0]);
}

#[test]
fn test_as_mut_str_allows_in_place_mutation() {
    let mut ps = PascalString::<4>::try_from("ab").unwrap();
    ps.as_mut_str().make_ascii_uppercase();
    assert_eq!(ps.as_str(), "AB");
}

#[test]
fn test_insert_str_and_remove_unicode_boundaries() {
    let mut ps = PascalString::<8>::try_from("ab").unwrap();
    ps.insert_str_expect_capacity(1, "€"); // 3 bytes
    assert_eq!(ps.as_str(), "a€b");

    let removed = ps.remove(1);
    assert_eq!(removed, '€');
    assert_eq!(ps.as_str(), "ab");
}

#[test]
fn test_try_insert_str_too_long_does_not_modify() {
    let mut ps = PascalString::<4>::try_from("ab").unwrap();
    let err = ps.try_insert_str(1, "€").unwrap_err(); // would become 5 bytes
    assert_eq!(err, InsertError::TooLong);
    assert_eq!(ps.as_str(), "ab");
}

#[test]
fn test_try_from_str_const() {
    let ps = PascalString::<4>::try_from_str_const("ab").unwrap();
    assert_eq!(ps.as_str(), "ab");

    let too_long: Option<PascalString<2>> = PascalString::<2>::try_from_str_const("abc");
    assert!(too_long.is_none());
}

// -- Further cases --------------------------------------------------------------------------------

#[test]
fn try_from_round_trips_content() {
    for input in ["", "a", "ab€", "€€", "x€y"] {
        let ps = PascalString::<8>::try_from(input).unwrap();
        assert_eq!(ps.as_str(), input);
        assert_eq!(ps.len(), input.len());
    }
    let ps = PascalString::<255>::try_from("z".repeat(255).as_str()).unwrap();
    assert_eq!(ps.len(), 255);
    assert_eq!(ps.capacity(), 255);
}

#[test]
fn try_from_too_long_fails_and_truncation_keeps_whole_chars() {
    assert_eq!(
        PascalString::<4>::try_from("ab€").unwrap_err(),
        TryFromStrError::TooLong
    );
    let ps = PascalString::<4>::from_str_truncated("€ab");
    assert_eq!(ps.as_str(), "€a");
    let ps = PascalString::<2>::from_str_truncated("€ab");
    assert_eq!(ps.as_str(), "");
    let ps = PascalString::<5>::from_str_truncated("a€€");
    assert_eq!(ps.as_str(), "a€");
}

#[test]
fn clear_then_is_empty_and_truncate_to_len_is_noop() {
    let mut ps = PascalString::<8>::try_from("a€b").unwrap();
    let len = ps.len();
    ps.truncate(len);
    assert_eq!(ps.as_str(), "a€b");
    ps.truncate(1);
    assert_eq!(ps.as_str(), "a");
    ps.clear();
    assert!(ps.is_empty());
    assert_eq!(ps.as_str(), "");
}

#[test]
fn insert_errors_leave_content() {
    let mut ps = PascalString::<7>::try_from("a€b").unwrap();
    assert_eq!(
        ps.try_insert_str(2, "x"),
        Err(InsertError::NotCharBoundary { idx: 2 })
    );
    assert_eq!(
        ps.try_insert(9, 'x'),
        Err(InsertError::OutOfBounds { idx: 9, len: 5 })
    );
    assert_eq!(ps.try_insert(0, '€'), Err(InsertError::TooLong));
    assert_eq!(ps.as_str(), "a€b");
    assert_eq!(ps.try_insert(4, 'x'), Ok(()));
    assert_eq!(ps.as_str(), "a€xb");
}

#[test]
fn remove_errors_leave_content() {
    let mut ps = PascalString::<8>::try_from("a€b").unwrap();
    assert_eq!(
        ps.try_remove(3),
        Err(RemoveError::NotCharBoundary { idx: 3 })
    );
    assert_eq!(
        ps.try_remove(5),
        Err(RemoveError::OutOfBounds { idx: 5, len: 5 })
    );
    assert_eq!(ps.as_str(), "a€b");
    assert_eq!(ps.try_remove(1), Ok('€'));
    assert_eq!(ps.as_str(), "ab");
}

#[test]
fn remove_multibyte_scenario() {
    let mut ps = PascalString::<8>::try_from("a€b").unwrap();
    assert_eq!(ps.remove(1), '€');
    assert_eq!(ps.as_str(), "ab");
}

#[test]
fn insert_str_truncated_returns_rest() {
    let mut ps = PascalString::<4>::try_from("ab").unwrap();
    assert_eq!(ps.try_insert_str_truncated(1, "€x"), Ok("€x"));
    assert_eq!(ps.as_str(), "ab");
    assert_eq!(ps.try_insert_str_truncated(1, "xyz"), Ok("z"));
    assert_eq!(ps.as_str(), "axyb");
    assert_eq!(
        ps.try_insert_str_truncated(7, "q"),
        Err(InsertError::OutOfBounds { idx: 7, len: 4 })
    );
    let mut ps = PascalString::<8>::try_from("€").unwrap();
    assert_eq!(
        ps.try_insert_str_truncated(1, "q"),
        Err(InsertError::NotCharBoundary { idx: 1 })
    );
    assert_eq!(ps.insert_str_truncated(3, "abcdef"), "f");
    assert_eq!(ps.as_str(), "€abcde");
}

#[test]
fn pop_returns_last_char() {
    let mut ps = PascalString::<8>::try_from("a€").unwrap();
    assert_eq!(ps.pop(), Some('€'));
    assert_eq!(ps.as_str(), "a");
    assert_eq!(ps.pop(), Some('a'));
    assert_eq!(ps.pop(), None);
    assert!(ps.is_empty());
}

#[test]
fn push_variants_and_four_byte_chars() {
    let mut ps = PascalString::<8>::new();
    ps.push_expect_capacity('😀');
    ps.push_str_expect_capacity("é");
    assert_eq!(ps.as_str(), "😀é");
    assert_eq!(ps.len(), 6);
    assert_eq!(ps.try_push('😀'), Err(TryFromStrError::TooLong));
    ps.insert_expect_capacity(0, 'x');
    assert_eq!(ps.as_str(), "x😀é");
    assert_eq!(PascalString::<4>::try_from('😀').unwrap().as_str(), "😀");
    assert_eq!(
        PascalString::<3>::try_from('😀').unwrap_err(),
        TryFromStrError::TooLong
    );
}

#[test]
fn bytes_conversion_and_comparisons() {
    let ps = PascalString::<8>::try_from(&b"ab"[..]).unwrap();
    assert_eq!(ps.as_str(), "ab");
    let other: PascalString<8> = "b".parse().unwrap();
    assert!(ps < other);
    assert!(ps == PascalString::<8>::try_from("ab").unwrap());
    assert!(ps != other);
    assert!(ps == "ab");
    assert_eq!(TryFromBytesError::from(TryFromStrError::TooLong), TryFromBytesError::TooLong);
}

#[test]
fn reverse_equality_and_borrow() {
    let ps = PascalString::<4>::try_from("ab").unwrap();
    assert!(String::from("ab") == ps);
    assert!("ab" == ps);
    let b: &str = ps.borrow();
    assert_eq!(b, "ab");
    let mut owned = String::from("ab");
    let from_mut = PascalString::<4>::try_from(owned.as_mut_str()).unwrap();
    assert_eq!(from_mut.as_str(), "ab");
}
