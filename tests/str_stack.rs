use std::rc::Rc;

use smart_string::{SmartString, StrStack, StrStackIter, DEFAULT_CAPACITY};

#[test]
fn test_create() {
    let stack = StrStack::new();
    assert_eq!(stack.len(), 0);
    assert!(stack.is_empty());
    assert_eq!(stack.get_top(), None);
    assert_eq!(stack.get(0), None);
    assert_eq!(stack.get_bounds(0), None);
}

#[test]
fn test_push() {
    let mut stack = StrStack::new();

    stack.push("123");
    assert_eq!(stack.len(), 1);
    assert!(!stack.is_empty());
    assert_eq!(stack.get_top(), Some("123"));
    assert_eq!(stack.get(0), Some("123"));
    assert_eq!(stack.get_bounds(0), Some((0, 3)));
    assert_eq!(stack.get(1), None);
    assert_eq!(stack.get_bounds(1), None);

    stack.push("456");
    assert_eq!(stack.len(), 2);
    assert!(!stack.is_empty());
    assert_eq!(stack.get_top(), Some("456"));
    assert_eq!(stack.get(0), Some("123"));
    assert_eq!(stack.get_bounds(0), Some((0, 3)));
    assert_eq!(stack.get(1), Some("456"));
    assert_eq!(stack.get_bounds(1), Some((3, 6)));
    assert_eq!(stack.get(2), None);
    assert_eq!(stack.get_bounds(2), None);
}

#[test]
fn test_remove_top() {
    let mut stack = StrStack::new();

    stack.push("123");
    stack.push("456");
    stack.push("789");
    assert_eq!(stack.len(), 3);

    assert!(stack.remove_top().is_some());
    assert_eq!(stack.len(), 2);
    assert!(!stack.is_empty());
    assert_eq!(stack.get_top(), Some("456"));
    assert_eq!(stack.get(0), Some("123"));
    assert_eq!(stack.get(1), Some("456"));
    assert!(stack.get(2).is_none());
    assert!(stack.get_bounds(2).is_none());

    assert!(stack.remove_top().is_some());
    assert_eq!(stack.len(), 1);
    assert!(!stack.is_empty());
    assert_eq!(stack.get_top(), Some("123"));
    assert_eq!(stack.get(0), Some("123"));
    assert!(stack.get(1).is_none());
    assert!(stack.get_bounds(1).is_none());

    assert!(stack.remove_top().is_some());
    assert_eq!(stack.len(), 0);
    assert!(stack.is_empty());
    assert!(stack.get_top().is_none());
    assert!(stack.get(0).is_none());
    assert!(stack.get_bounds(0).is_none());

    assert!(stack.remove_top().is_none());
}

#[test]
fn test_pop_owned() {
    let mut stack = StrStack::new();

    stack.push("123");
    stack.push("456");
    stack.push("789");
    assert_eq!(stack.len(), 3);

    assert_eq!(stack.pop_owned::<String>(), Some("789".into()));
    assert_eq!(stack.len(), 2);
    assert_eq!(stack.get_top(), Some("456"));
    assert_eq!(stack.get(0), Some("123"));
    assert_eq!(stack.get(1), Some("456"));
    assert!(stack.get(2).is_none());
    assert!(stack.get_bounds(2).is_none());

    assert_eq!(
        stack.pop_owned::<SmartString<DEFAULT_CAPACITY>>(),
        Some("456".into())
    );
    assert_eq!(stack.len(), 1);
    assert_eq!(stack.get_top(), Some("123"));
    assert_eq!(stack.get(0), Some("123"));
    assert!(stack.get(1).is_none());
    assert!(stack.get_bounds(1).is_none());

    assert_eq!(stack.pop_owned::<Rc<str>>(), Some("123".into()));
    assert_eq!(stack.len(), 0);
    assert!(stack.get_top().is_none());
    assert!(stack.get(0).is_none());
    assert!(stack.get_bounds(0).is_none());

    assert!(stack.pop_owned::<Box<str>>().is_none());
}

#[test]
fn mod_test_iter() {
    let mut stack = StrStack::new();

    stack.push("123");
    stack.push("456");
    stack.push("789");

    let mut iter = stack.iter();
    assert_eq!(iter.next(), Some("123"));
    assert_eq!(iter.next(), Some("456"));
    assert_eq!(iter.next(), Some("789"));
    assert_eq!(iter.next(), None);
    assert_eq!(iter.next(), None);
}

#[test]
fn iter_test_iter() {
    let mut stack = StrStack::new();

    stack.push("123");
    stack.push("456");
    stack.push("789");

    let mut iter = StrStackIter::new(&stack);
    assert_eq!(iter.next(), Some("123"));
    assert_eq!(iter.next(), Some("456"));
    assert_eq!(iter.next(), Some("789"));
    assert_eq!(iter.next(), None);
    assert_eq!(iter.next(), None);
}

#[test]
fn test_iter_empty() {
    let stack = StrStack::new();

    let mut iter = StrStackIter::new(&stack);
    assert_eq!(iter.next(), None);
    assert_eq!(iter.next(), None);
}

// -- Further cases --------------------------------------------------------------------------------

#[test]
fn empty_entries_and_unicode() {
    let mut stack = StrStack::new();
    stack.push("");
    stack.push("€");
    stack.push("");
    assert_eq!(stack.len(), 3);
    assert_eq!(stack.get(0), Some(""));
    assert_eq!(stack.get(1), Some("€"));
    assert_eq!(stack.get_bounds(1), Some((0, 3)));
    assert_eq!(stack.get_bounds(2), Some((3, 3)));
    assert_eq!(stack.get_unchecked(0, 3), "€");
    assert_eq!(stack.as_str(), "€");
    let it = stack.iter();
    assert_eq!(it.len(), 3);
    assert!(stack.remove_top().is_some());
    assert_eq!(stack.get_top(), Some("€"));
}
