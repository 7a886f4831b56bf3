use std::borrow::Cow;
use std::mem;
use std::rc::Rc;
use std::sync::Arc;

use smart_string::pascal_string::InsertError;
use smart_string::{PascalString, SmartString, DEFAULT_CAPACITY};

#[test]
fn test_size() {
    // Default stack capacity is 30 bytes, corresponding to 32 bytes of the enum.
    assert_eq!(mem::size_of::<SmartString<DEFAULT_CAPACITY>>(), 32);

    let small_sizes = [
        mem::size_of::<SmartString<0>>(),
        mem::size_of::<SmartString<1>>(),
        mem::size_of::<SmartString<15>>(),
    ];
    for size in small_sizes {
        assert!(
            size == 24 || size == 32,
            "unexpected SmartString small size: {size}"
        );
    }

    assert_eq!(mem::size_of::<SmartString<16>>(), 32);
    assert_eq!(mem::size_of::<SmartString<22>>(), 32);

    assert_eq!(mem::size_of::<SmartString<23>>(), 32);
    assert_eq!(mem::size_of::<SmartString<30>>(), 32);

    assert_eq!(mem::size_of::<SmartString<31>>(), 40);
    assert_eq!(mem::size_of::<SmartString<38>>(), 40);

    assert_eq!(mem::size_of::<SmartString<39>>(), 48);
    assert_eq!(mem::size_of::<SmartString<46>>(), 48);
}

#[test]
fn test_from_str_picks_stack_or_heap() {
    let s = SmartString::<4>::from("abcd");
    assert!(s.is_stack());

    let s = SmartString::<4>::from("abcde");
    assert!(s.is_heap());
}

#[test]
fn test_push_str_transitions_stack_to_heap() {
    let mut s = SmartString::<4>::new();
    assert!(s.is_stack());

    s.push_str("ab");
    assert!(s.is_stack());
    assert_eq!(s.as_str(), "ab");

    s.push_str("cd");
    assert!(s.is_stack());
    assert_eq!(s.as_str(), "abcd");

    s.push_str("e");
    assert!(s.is_heap());
    assert_eq!(s.as_str(), "abcde");
}

#[test]
fn test_push_char_and_unicode_boundaries() {
    let mut s = SmartString::<4>::new();
    s.push('€'); // 3 bytes
    assert!(s.is_stack());
    assert_eq!(s.as_str(), "€");

    s.push('a'); // +1 byte => exactly 4
    assert!(s.is_stack());
    assert_eq!(s.as_str(), "€a");

    s.push('b');
    assert!(s.is_heap());
    assert_eq!(s.as_str(), "€ab");

    s.truncate(3);
    assert_eq!(s.as_str(), "€");
    assert_eq!(s.pop(), Some('€'));
    assert_eq!(s.as_str(), "");
    assert_eq!(s.pop(), None);
}

#[test]
fn test_reserve_transitions_stack_to_heap() {
    let mut s = SmartString::<4>::from("ab");
    assert!(s.is_stack());

    s.reserve(2);
    assert!(s.is_stack());

    s.reserve(3);
    assert!(s.is_heap());
    assert_eq!(s.as_str(), "ab");
}

#[test]
fn test_try_into_stack_converts_short_heap_string() {
    let s = SmartString::<4>::from(String::from("abc"));
    assert!(s.is_heap());

    let s = s.try_into_stack();
    assert!(s.is_stack());
    assert_eq!(s.as_str(), "abc");
}

#[test]
fn test_into_heap_always_returns_heap_variant() {
    let s = SmartString::<4>::from("abc");
    assert!(s.is_stack());

    let s = s.into_heap();
    assert!(s.is_heap());
    assert_eq!(s.as_str(), "abc");
}

#[test]
fn test_truncate_does_not_demote_heap_to_stack() {
    let mut s = SmartString::<4>::from("abcde");
    assert!(s.is_heap());

    s.truncate(2);
    assert_eq!(s.as_str(), "ab");
    assert!(s.is_heap());

    let s = s.try_into_stack();
    assert_eq!(s.as_str(), "ab");
    assert!(s.is_stack());
}

#[test]
fn test_try_reserve_transitions_stack_to_heap() {
    let mut s = SmartString::<4>::from("ab");
    assert!(s.is_stack());

    s.try_reserve(2).unwrap();
    assert!(s.is_stack());

    s.try_reserve(3).unwrap();
    assert!(s.is_heap());
    assert_eq!(s.as_str(), "ab");
}

#[test]
fn test_try_reserve_exact_transitions_stack_to_heap() {
    let mut s = SmartString::<4>::from("ab");
    assert!(s.is_stack());

    s.try_reserve_exact(3).unwrap();
    assert!(s.is_heap());
    assert_eq!(s.as_str(), "ab");
}

#[test]
fn test_extend_str_transitions_stack_to_heap() {
    let mut s = SmartString::<4>::new();
    s.extend_strs(&["ab", "cd"]);
    assert!(s.is_stack());
    assert_eq!(s.as_str(), "abcd");

    s.extend_strs(&["e"]);
    assert!(s.is_heap());
    assert_eq!(s.as_str(), "abcde");
}

#[test]
fn test_extend_char_unicode_boundaries() {
    let mut s = SmartString::<4>::new();
    s.extend_chars(&['€', 'a']); // 3 + 1 bytes
    assert!(s.is_stack());
    assert_eq!(s.as_str(), "€a");

    s.extend_chars(&['b']);
    assert!(s.is_heap());
    assert_eq!(s.as_str(), "€ab");
}

#[test]
fn test_add_assign() {
    let mut s = SmartString::<4>::from("a");
    s += "bcd";
    assert!(s.is_stack());
    assert_eq!(s.as_str(), "abcd");

    s += "e";
    assert!(s.is_heap());
    assert_eq!(s.as_str(), "abcde");
}

#[test]
fn test_insert_and_remove_promotes_to_heap() {
    let mut s = SmartString::<8>::from("ab");
    assert!(s.is_stack());

    s.insert(1, '€');
    assert!(s.is_stack());
    assert_eq!(s.as_str(), "a€b");

    let removed = s.remove(1);
    assert_eq!(removed, '€');
    assert_eq!(s.as_str(), "ab");
}

#[test]
fn test_insert_promotes_to_heap_when_overflow() {
    let mut s = SmartString::<4>::from("ab");
    assert!(s.is_stack());

    s.insert(1, '€');
    assert!(s.is_heap());
    assert_eq!(s.as_str(), "a€b");
}

#[test]
fn test_insert_str_truncated_on_stack() {
    let mut s = SmartString::<4>::from("ab");
    assert!(s.is_stack());

    let rem = s.insert_str_truncated(1, "cde");
    assert_eq!(s.as_str(), "acdb");
    assert_eq!(rem, "e");
    assert!(s.is_stack());
}

#[test]
fn test_split_off_returns_stack_when_possible() {
    let mut s = SmartString::<8>::from("hello!");
    assert!(s.is_stack());

    let other = s.split_off(5);
    assert_eq!(s.as_str(), "hello");
    assert_eq!(other.as_str(), "!");
    assert!(other.is_stack());
}

#[test]
fn test_replace_range() {
    let mut s = SmartString::<8>::from("ab");
    s.replace_range(1..1, "cd");
    assert_eq!(s.as_str(), "acdb");
}

#[test]
fn test_len_and_is_empty() {
    let s = SmartString::<4>::new();
    assert!(s.is_empty());
    assert_eq!(s.len(), 0);

    let s = SmartString::<4>::from("ab");
    assert!(!s.is_empty());
    assert_eq!(s.len(), 2);
}

#[test]
fn test_from_string_refs_and_smart_extend_refs() {
    let base = String::from("ab");
    let s = SmartString::<4>::from(&base);
    assert!(s.is_stack());
    assert_eq!(s.as_str(), "ab");

    let mut s = SmartString::<4>::new();
    let euro = '€';
    let a = 'a';
    s.extend_chars(&[euro, a]);
    assert!(s.is_stack());
    assert_eq!(s.as_str(), "€a");

    let b = String::from("b");
    s.extend_strs(&[b.as_str()]);
    assert!(s.is_heap());
    assert_eq!(s.as_str(), "€ab");
}

#[test]
fn test_into_boxed_str() {
    let boxed = SmartString::<4>::from("ab").into_boxed_str();
    assert_eq!(&*boxed, "ab");
}

#[test]
fn test_leak() {
    let leaked: &'static mut str = SmartString::<4>::from("ab").leak();
    leaked.make_ascii_uppercase();
    assert_eq!(leaked, "AB");
}

#[test]
fn test_from_utf8_lossy() {
    let s = SmartString::<4>::from_utf8_lossy(&[0x66, 0x6f, 0x6f]);
    assert_eq!(s, "foo");

    let s = SmartString::<4>::from_utf8_lossy(&[0xff]);
    assert!(matches!(s, Cow::Owned(_)));
}

#[test]
fn test_from_char_picks_stack_or_heap() {
    let s = SmartString::<4>::from('€'); // 3 bytes
    assert!(s.is_stack());
    assert_eq!(s.as_str(), "€");

    let s = SmartString::<2>::from('€'); // won't fit (3 bytes)
    assert!(s.is_heap());
    assert_eq!(s.as_str(), "€");
}

#[test]
fn test_from_cow_ref() {
    let borrowed: Cow<'_, str> = Cow::Borrowed("ab");
    let owned: Cow<'_, str> = Cow::Owned(String::from("ab"));
    assert_eq!(SmartString::<4>::from(&borrowed).as_str(), "ab");
    assert_eq!(SmartString::<4>::from(&owned).as_str(), "ab");
}

#[test]
fn test_from_ref_str_containers_and_into_box_str() {
    let b: Box<str> = "ab".into();
    let r: Rc<str> = Rc::from("ab");
    let a: Arc<str> = Arc::from("ab");

    assert_eq!(SmartString::<4>::from(&b).as_str(), "ab");
    assert_eq!(SmartString::<4>::from(&r).as_str(), "ab");
    assert_eq!(SmartString::<4>::from(&a).as_str(), "ab");

    let boxed: Box<str> = SmartString::<4>::from("ab").into();
    assert_eq!(&*boxed, "ab");
}

#[test]
fn test_into_vec_u8_rc_arc_str() {
    let bytes: Vec<u8> = SmartString::<4>::from("ab").into();
    assert_eq!(bytes, b"ab");

    let rc: Rc<str> = SmartString::<4>::from("ab").into();
    assert_eq!(&*rc, "ab");

    let arc: Arc<str> = SmartString::<4>::from("ab").into();
    assert_eq!(&*arc, "ab");
}

// -- Further cases --------------------------------------------------------------------------------

#[test]
fn heap_value_stays_on_heap_until_demoted() {
    let mut s = SmartString::<4>::from("abcd");
    assert!(s.is_stack());
    s.push_str("e");
    assert!(s.is_heap());
    assert_eq!(s.as_str(), "abcde");
    s.truncate(2);
    assert_eq!(s.as_str(), "ab");
    assert!(s.is_heap());
    s.pop();
    s.clear();
    s.push('x');
    s.insert(0, 'y');
    s.remove(0);
    s.shrink_to_fit();
    assert!(s.is_heap());
    assert_eq!(s.as_str(), "x");
    let s = s.try_into_stack();
    assert!(s.is_stack());
    assert_eq!(s.as_str(), "x");
    let long = SmartString::<4>::from("abcdef").try_into_stack();
    assert!(long.is_heap());
}

#[test]
fn heap_insert_str_truncated_takes_everything() {
    let mut s = SmartString::<4>::from("abcde");
    assert_eq!(s.try_insert_str_truncated(5, "xyz"), Ok(""));
    assert_eq!(s.as_str(), "abcdexyz");
    assert_eq!(
        s.try_insert_str_truncated(9, "q"),
        Err(InsertError::OutOfBounds { idx: 9, len: 8 })
    );
    let mut s = SmartString::<4>::from("€€");
    assert_eq!(
        s.try_insert_str_truncated(1, "q"),
        Err(InsertError::NotCharBoundary { idx: 1 })
    );
    assert_eq!(s.as_str(), "€€");
}

#[test]
fn conversions_keep_content() {
    let s = SmartString::<4>::from_utf8(b"abcd".to_vec()).unwrap();
    assert!(s.is_heap());
    assert_eq!(s.as_str(), "abcd");
    assert!(SmartString::<4>::from_utf8(vec![0xff]).is_err());
    let units: Vec<u16> = "h€".encode_utf16().collect();
    assert_eq!(SmartString::<4>::from_utf16(&units).unwrap().as_str(), "h€");
    assert!(SmartString::<4>::from_utf16(&[0xd800]).is_err());
    assert_eq!(SmartString::<4>::from_utf16_lossy(&[0x68, 0xd800]).as_str(), "h\u{fffd}");
    assert_eq!(SmartString::<4>::from("a€").into_bytes(), "a€".as_bytes().to_vec());
    assert_eq!(SmartString::<4>::from("abcdef").into_string(), "abcdef");
    let p = PascalString::<8>::try_from("abc").unwrap();
    assert!(SmartString::<4>::from(p).is_stack());
    let p = PascalString::<8>::try_from("abcde").unwrap();
    assert!(SmartString::<4>::from(p).is_heap());
    let s: String = SmartString::<4>::from("xy").into();
    assert_eq!(s, "xy");
    let v: Vec<u8> = SmartString::<4>::from("xy").into();
    assert_eq!(v, b"xy");
}

#[test]
fn with_capacity_and_reserve_exact() {
    let s = SmartString::<4>::with_capacity(4);
    assert!(s.is_stack());
    let s = SmartString::<4>::with_capacity(5);
    assert!(s.is_heap());
    assert!(s.is_empty());
    let mut s = SmartString::<4>::from("ab");
    s.reserve_exact(2);
    assert!(s.is_stack());
    assert_eq!(s.capacity(), 4);
    s.reserve_exact(3);
    assert!(s.is_heap());
    assert!(s.capacity() >= 5);
    assert_eq!(s.as_str(), "ab");
}

#[test]
fn split_and_replace_keep_inline_storage() {
    let mut s = SmartString::<8>::from("ab€cd");
    assert!(s.is_stack());
    let tail = s.split_off(2);
    assert!(s.is_stack());
    assert!(tail.is_stack());
    assert_eq!(s.as_str(), "ab");
    assert_eq!(tail.as_str(), "€cd");

    let mut s = SmartString::<4>::from("abcd");
    s.replace_range(1..3, "x");
    assert!(s.is_stack());
    assert_eq!(s.as_str(), "axd");
    s.replace_range(0..1, "yyy");
    assert!(s.is_heap());
    assert_eq!(s.as_str(), "yyyxd");

    let mut s = SmartString::<4>::from("abcdef");
    let tail = s.split_off(4);
    assert!(s.is_heap());
    assert_eq!(s.as_str(), "abcd");
    assert!(tail.is_stack());
    assert_eq!(tail.as_str(), "ef");
}

#[test]
fn try_reserve_within_inline_room_succeeds() {
    let mut s = SmartString::<4>::from("ab");
    assert!(s.try_reserve(2).is_ok());
    assert!(s.try_reserve_exact(1).is_ok());
    assert!(s.is_stack());
    assert_eq!(s.as_str(), "ab");
}

#[test]
fn retain_keeps_matching_chars_and_storage() {
    let mut s = SmartString::<9>::from("a€b€c");
    assert!(s.is_stack());
    s.retain(|c| c != '€');
    assert_eq!(s.as_str(), "abc");
    assert!(s.is_stack());
    let mut s = SmartString::<4>::from("abcdef");
    s.retain(|c| c < 'd');
    assert_eq!(s.as_str(), "abc");
    assert!(s.is_heap());
}

#[test]
fn reverse_equality_and_borrowed_views() {
    let s = SmartString::<4>::from("ab");
    assert!(String::from("ab") == s);
    assert!("ab" == s);
    let text: &str = s.as_ref();
    assert_eq!(text, "ab");
    let bytes: &[u8] = s.as_ref();
    assert_eq!(bytes, b"ab");
    let mut owned = String::from("xyz");
    let m = SmartString::<4>::from(owned.as_mut_str());
    assert!(m.is_stack());
    assert_eq!(m.as_str(), "xyz");
}

#[test]
fn as_mut_str_changes_content_in_place() {
    let mut s = SmartString::<4>::from("ab");
    s.as_mut_str().make_ascii_uppercase();
    assert_eq!(s.as_str(), "AB");
    assert!(s.is_stack());
    let mut s = SmartString::<4>::from("abcde");
    s.as_mut_str().make_ascii_uppercase();
    assert_eq!(s.as_str(), "ABCDE");
    assert!(s.is_heap());
}

#[test]
fn equality_and_order_ignore_storage() {
    let a = SmartString::<4>::from("ab");
    let b = SmartString::<4>::from(String::from("ab"));
    assert!(a.is_stack() && b.is_heap());
    assert!(a == b);
    assert!(a == "ab");
    assert!(a == String::from("ab"));
    assert!(a < SmartString::<4>::from("b"));
    let c = a.clone() + "cde";
    assert_eq!(c.as_str(), "abcde");
    assert!(c.is_heap());
}
