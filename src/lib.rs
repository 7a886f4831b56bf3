//! Strings that live inline when short: a fixed-capacity inline string, and a
//! string that keeps short content inline and moves to the heap when it grows.
//! Also a compact stack of strings in one buffer.

pub mod pascal_string;
pub mod smart_string;
mod std_calls;
pub mod str_stack;
pub mod text;

pub use pascal_string::PascalString;
pub use smart_string::SmartString;
pub use smart_string::DEFAULT_CAPACITY;
pub use std_calls::{utf16_decoding, utf16_lossy_decoding, utf8_lossy_decoding};
pub use str_stack::StrStack;
pub use str_stack::StrStackIter;
