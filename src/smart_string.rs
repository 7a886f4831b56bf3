use vstd::prelude::*;
use vstd::string::StringSliceAdditionalSpecFns;
use vstd::std_specs::iter::IteratorSpec;
use vstd::utf8::*;

use crate::pascal_string::{InsertError, PascalString, TryFromStrError};
use crate::std_calls::{
    arc_str_from_string, rc_str_from_string, string_as_mut_str,
    string_capacity, string_clear, string_from_utf16, string_from_utf16_lossy,
    string_from_utf8, string_from_utf8_lossy, string_insert, string_insert_str,
    string_into_boxed_str, string_into_bytes, string_leak, string_pop, string_push,
    string_push_str, string_remove, string_replace_range, string_reserve, string_reserve_exact,
    string_shrink_to, string_shrink_to_fit, string_split_off, string_truncate,
    string_try_reserve, string_try_reserve_exact, string_with_capacity, utf16_decoding,
    utf16_lossy_decoding, utf8_lossy_decoding,
};
use crate::text::{
    compare_bytes, equal_bytes, floor_boundary, kept, lemma_encode_concat, lemma_kept_len, lemma_encode_single, lex_cmp,
};

verus! {

broadcast use {vstd::utf8::group_utf8_lib, vstd::string::group_string_axioms};

/// The inline capacity used when none is named.
pub const DEFAULT_CAPACITY: usize = 30;

/// A string that keeps short content inline and longer content on the heap.
///
/// Mutations move an inline value to the heap when its content would no
/// longer fit into `N` bytes. Nothing moves a value back inline except
/// `try_into_stack`.
#[derive(Clone, Debug)]
pub enum SmartString<const N: usize> {
    Heap(String),
    Stack(PascalString<N>),
}

impl<const N: usize> View for SmartString<N> {
    type V = Seq<char>;

    open spec fn view(&self) -> Seq<char> {
        match self {
            SmartString::Heap(s) => s@,
            SmartString::Stack(s) => s@,
        }
    }
}

impl<const N: usize> SmartString<N> {
    /// The UTF-8 bytes of the content.
    pub open spec fn bytes(&self) -> Seq<u8> {
        encode_utf8(self@)
    }

    /// Whether the content is held on the heap.
    pub open spec fn heap_backed(&self) -> bool {
        self is Heap
    }

    /// Whether `len` bytes can be held inline.
    pub open spec fn fits_inline(len: int) -> bool {
        N <= 255 && len <= N
    }

    /// Moves an inline value to the heap; the content stays as it was.
    fn ensure_heap_mut(&mut self)
        ensures
            final(self)@ == old(self)@,
            final(self).heap_backed(),
    {
        match self {
            SmartString::Stack(s) => {
                let h = s.as_str().to_owned();
                *self = SmartString::Heap(h);
            },
            SmartString::Heap(_) => {},
        }
    }

    /// An inline value holds at most `N` bytes.
    fn inline_len_bound(&self)
        ensures
            !self.heap_backed() ==> self.bytes().len() <= N,
    {
        match self {
            SmartString::Stack(s) => {
                let _ = s.len();
            },
            SmartString::Heap(_) => {},
        }
    }

    /// An empty, inline string.
    pub fn new() -> (r: Self)
        requires
            N <= 255,
        ensures
            r@ == Seq::<char>::empty(),
            !r.heap_backed(),
    {
        SmartString::Stack(PascalString::new())
    }

    /// An empty string, on the heap exactly when `capacity` exceeds `N`.
    pub fn with_capacity(capacity: usize) -> (r: Self)
        requires
            N <= 255,
            capacity <= isize::MAX,
        ensures
            r@ == Seq::<char>::empty(),
            r.heap_backed() <==> capacity > N,
    {
        if capacity <= N {
            Self::new()
        } else {
            SmartString::Heap(string_with_capacity(capacity))
        }
    }

    /// A heap string holding `vec`, when it is valid UTF-8.
    pub fn from_utf8(vec: Vec<u8>) -> (r: Result<Self, std::string::FromUtf8Error>)
        ensures
            r is Ok <==> valid_utf8(vec@),
            r matches Ok(s) ==> s.bytes() == vec@ && s.heap_backed(),
    {
        match string_from_utf8(vec) {
            Ok(s) => Ok(SmartString::Heap(s)),
            Err(e) => Err(e),
        }
    }

    /// A heap string decoded from UTF-16, when it holds no unpaired surrogate.
    pub fn from_utf16(v: &[u16]) -> (r: Result<Self, std::string::FromUtf16Error>)
        ensures
            r is Ok <==> utf16_decoding(v@) is Some,
            r matches Ok(s) ==> s@ == utf16_decoding(v@)->0 && s.heap_backed(),
    {
        match string_from_utf16(v) {
            Ok(s) => Ok(SmartString::Heap(s)),
            Err(e) => Err(e),
        }
    }

    /// A heap string decoded from UTF-16, unpaired surrogates replaced.
    pub fn from_utf16_lossy(v: &[u16]) -> (r: Self)
        ensures
            r@ == utf16_lossy_decoding(v@),
            r.heap_backed(),
    {
        SmartString::Heap(string_from_utf16_lossy(v))
    }

    /// The content decoded from `v`, invalid sequences replaced; borrowed when
    /// `v` is valid UTF-8.
    pub fn from_utf8_lossy(v: &[u8]) -> (r: std::borrow::Cow<'_, str>)
        ensures
            r@ == utf8_lossy_decoding(v@),
            valid_utf8(v@) ==> r@ == decode_utf8(v@) && r is Borrowed,
            !valid_utf8(v@) ==> r is Owned,
    {
        string_from_utf8_lossy(v)
    }

    /// The content as a string slice.
    pub fn as_str(&self) -> (r: &str)
        ensures
            r@ == self@,
    {
        match self {
            SmartString::Heap(s) => s.as_str(),
            SmartString::Stack(s) => s.as_str(),
        }
    }

    /// The content as a mutable string slice; the storage stays as it is.
    pub fn as_mut_str(&mut self) -> (r: &mut str)
        ensures
            r@ == old(self)@,
            final(self)@ == final(r)@,
            final(self).heap_backed() == old(self).heap_backed(),
    {
        match self {
            SmartString::Heap(s) => string_as_mut_str(s),
            SmartString::Stack(s) => s.as_mut_str(),
        }
    }

    /// The length of the content in bytes.
    pub fn len(&self) -> (r: usize)
        ensures
            r == self.bytes().len(),
    {
        self.as_str().as_bytes().len()
    }

    /// Whether the content is empty.
    pub fn is_empty(&self) -> (r: bool)
        ensures
            r == (self@.len() == 0),
    {
        self.as_str().is_empty()
    }

    /// Whether the content is held on the heap.
    pub fn is_heap(&self) -> (r: bool)
        ensures
            r == self.heap_backed(),
    {
        match self {
            SmartString::Heap(_) => true,
            SmartString::Stack(_) => false,
        }
    }

    /// Whether the content is held inline.
    pub fn is_stack(&self) -> (r: bool)
        ensures
            r == !self.heap_backed(),
    {
        match self {
            SmartString::Heap(_) => false,
            SmartString::Stack(_) => true,
        }
    }

    /// The same content, on the heap.
    pub fn into_heap(self) -> (r: Self)
        ensures
            r@ == self@,
            r.heap_backed(),
    {
        match self {
            SmartString::Stack(s) => SmartString::Heap(s.as_str().to_owned()),
            SmartString::Heap(s) => SmartString::Heap(s),
        }
    }

    /// The same content, moved inline when it fits into `N` bytes.
    pub fn try_into_stack(self) -> (r: Self)
        ensures
            r@ == self@,
            !self.heap_backed() ==> !r.heap_backed(),
            self.heap_backed() ==> (r.heap_backed() <==> !Self::fits_inline(
                self.bytes().len() as int,
            )),
    {
        match self {
            SmartString::Stack(s) => SmartString::Stack(s),
            SmartString::Heap(s) => match PascalString::try_from(s.as_str()) {
                Ok(p) => SmartString::Stack(p),
                Err(TryFromStrError::TooLong) => SmartString::Heap(s),
            },
        }
    }

    /// Appends `string`, moving to the heap when the result would not fit inline.
    pub fn push_str(&mut self, string: &str)
        ensures
            final(self)@ == old(self)@ + string@,
            old(self).heap_backed() ==> final(self).heap_backed(),
            !old(self).heap_backed() ==> (final(self).heap_backed() <==> old(self).bytes().len()
                + string.spec_bytes().len() > N),
    {
        match self {
            SmartString::Heap(s) => string_push_str(s, string),
            SmartString::Stack(s) => match s.try_push_str(string) {
                Ok(()) => {},
                Err(TryFromStrError::TooLong) => {
                    let mut h = s.as_str().to_owned();
                    string_push_str(&mut h, string);
                    *self = SmartString::Heap(h);
                },
            },
        }
    }

    /// Appends `ch`, moving to the heap when the result would not fit inline.
    pub fn push(&mut self, ch: char)
        ensures
            final(self)@ == old(self)@.push(ch),
            old(self).heap_backed() ==> final(self).heap_backed(),
            !old(self).heap_backed() ==> (final(self).heap_backed() <==> old(self).bytes().len()
                + encode_scalar(ch as u32).len() > N),
    {
        match self {
            SmartString::Heap(s) => string_push(s, ch),
            SmartString::Stack(s) => match s.try_push(ch) {
                Ok(()) => {},
                Err(TryFromStrError::TooLong) => {
                    let mut h = s.as_str().to_owned();
                    string_push(&mut h, ch);
                    *self = SmartString::Heap(h);
                },
            },
        }
    }

    /// The number of bytes the current storage holds without growing: `N`
    /// inline, and never less than the length.
    pub fn capacity(&self) -> (r: usize)
        ensures
            !self.heap_backed() ==> r == N,
            r >= self.bytes().len(),
    {
        self.inline_len_bound();
        match self {
            SmartString::Heap(s) => string_capacity(s),
            SmartString::Stack(s) => s.capacity(),
        }
    }

    /// Makes room for `additional` more bytes, moving to the heap when they
    /// would not fit inline. The content stays as it was.
    pub fn reserve(&mut self, additional: usize)
        requires
            old(self).bytes().len() + additional <= isize::MAX,
        ensures
            final(self)@ == old(self)@,
            old(self).heap_backed() ==> final(self).heap_backed(),
            !old(self).heap_backed() ==> (final(self).heap_backed() <==> old(self).bytes().len()
                + additional > N),
    {
        match self {
            SmartString::Heap(s) => string_reserve(s, additional),
            SmartString::Stack(s) => {
                if s.capacity() - s.len() < additional {
                    let mut h = string_with_capacity(s.len() + additional);
                    string_push_str(&mut h, s.as_str());
                    *self = SmartString::Heap(h);
                }
            },
        }
    }

    /// Makes room for exactly `additional` more bytes, moving to the heap when
    /// they would not fit inline. The content stays as it was.
    pub fn reserve_exact(&mut self, additional: usize)
        requires
            old(self).bytes().len() + additional <= isize::MAX,
        ensures
            final(self)@ == old(self)@,
            old(self).heap_backed() ==> final(self).heap_backed(),
            !old(self).heap_backed() ==> (final(self).heap_backed() <==> old(self).bytes().len()
                + additional > N),
    {
        match self {
            SmartString::Heap(s) => string_reserve_exact(s, additional),
            SmartString::Stack(s) => {
                if s.capacity() - s.len() < additional {
                    let mut h = string_with_capacity(0);
                    string_reserve_exact(&mut h, s.len() + additional);
                    string_push_str(&mut h, s.as_str());
                    *self = SmartString::Heap(h);
                }
            },
        }
    }

    /// Tries to make room for `additional` more bytes, moving to the heap when
    /// they would not fit inline. The content stays as it was; on failure the
    /// storage does too.
    pub fn try_reserve(&mut self, additional: usize) -> (r: Result<
        (),
        std::collections::TryReserveError,
    >)
        ensures
            final(self)@ == old(self)@,
            old(self).heap_backed() ==> final(self).heap_backed(),
            !old(self).heap_backed() && r is Ok ==> (final(self).heap_backed() <==> old(
                self,
            ).bytes().len() + additional > N),
            !old(self).heap_backed() && r is Err ==> *final(self) == *old(self),
            !old(self).heap_backed() && old(self).bytes().len() + additional <= N ==> r is Ok
                && *final(self) == *old(self),
    {
        match self {
            SmartString::Heap(s) => string_try_reserve(s, additional),
            SmartString::Stack(s) => {
                if s.capacity() - s.len() < additional {
                    let mut h = s.as_str().to_owned();
                    match string_try_reserve(&mut h, additional) {
                        Ok(()) => {
                            *self = SmartString::Heap(h);
                            Ok(())
                        },
                        Err(e) => Err(e),
                    }
                } else {
                    Ok(())
                }
            },
        }
    }

    /// Tries to make room for exactly `additional` more bytes, moving to the
    /// heap when they would not fit inline. The content stays as it was; on
    /// failure the storage does too.
    pub fn try_reserve_exact(&mut self, additional: usize) -> (r: Result<
        (),
        std::collections::TryReserveError,
    >)
        ensures
            final(self)@ == old(self)@,
            old(self).heap_backed() ==> final(self).heap_backed(),
            !old(self).heap_backed() && r is Ok ==> (final(self).heap_backed() <==> old(
                self,
            ).bytes().len() + additional > N),
            !old(self).heap_backed() && r is Err ==> *final(self) == *old(self),
            !old(self).heap_backed() && old(self).bytes().len() + additional <= N ==> r is Ok
                && *final(self) == *old(self),
    {
        match self {
            SmartString::Heap(s) => string_try_reserve_exact(s, additional),
            SmartString::Stack(s) => {
                if s.capacity() - s.len() < additional {
                    let mut h = s.as_str().to_owned();
                    match string_try_reserve_exact(&mut h, additional) {
                        Ok(()) => {
                            *self = SmartString::Heap(h);
                            Ok(())
                        },
                        Err(e) => Err(e),
                    }
                } else {
                    Ok(())
                }
            },
        }
    }

    /// Shortens the content to `new_len` bytes, which must be a character
    /// boundary; a `new_len` at or past the end changes nothing. The storage
    /// stays as it was.
    pub fn truncate(&mut self, new_len: usize)
        requires
            new_len >= old(self).bytes().len() || is_char_boundary(
                old(self).bytes(),
                new_len as int,
            ),
        ensures
            new_len >= old(self).bytes().len() ==> final(self)@ == old(self)@,
            new_len < old(self).bytes().len() ==> final(self).bytes() == old(self).bytes().subrange(
                0,
                new_len as int,
            ),
            final(self).heap_backed() == old(self).heap_backed(),
    {
        match self {
            SmartString::Heap(s) => string_truncate(s, new_len),
            SmartString::Stack(s) => {
                if new_len < s.len() {
                    s.truncate(new_len);
                }
            },
        }
    }

    /// Removes the last character and returns it, or `None` when empty. The
    /// storage stays as it was.
    pub fn pop(&mut self) -> (r: Option<char>)
        ensures
            old(self)@.len() == 0 ==> r is None && final(self)@ == old(self)@,
            old(self)@.len() > 0 ==> r == Some(old(self)@.last()) && final(self)@ == old(
                self,
            )@.drop_last(),
            final(self).heap_backed() == old(self).heap_backed(),
    {
        match self {
            SmartString::Heap(s) => string_pop(s),
            SmartString::Stack(s) => s.pop(),
        }
    }

    /// Empties the string; the storage stays as it was.
    pub fn clear(&mut self)
        ensures
            final(self)@ == Seq::<char>::empty(),
            final(self).heap_backed() == old(self).heap_backed(),
    {
        match self {
            SmartString::Heap(s) => string_clear(s),
            SmartString::Stack(s) => s.clear(),
        }
    }

    /// The content as a `String`.
    pub fn into_string(self) -> (r: String)
        ensures
            r@ == self@,
    {
        match self {
            SmartString::Heap(s) => s,
            SmartString::Stack(s) => s.as_str().to_owned(),
        }
    }

    /// The UTF-8 bytes of the content.
    pub fn into_bytes(self) -> (r: Vec<u8>)
        ensures
            r@ == self.bytes(),
    {
        string_into_bytes(self.into_string())
    }

    /// The content as a boxed string slice.
    pub fn into_boxed_str(self) -> (r: Box<str>)
        ensures
            r@ == self@,
    {
        string_into_boxed_str(self.into_string())
    }

    /// The content as a string slice that is never freed.
    pub fn leak<'a>(self) -> (r: &'a mut str)
        ensures
            r@ == self@,
    {
        string_leak(self.into_string())
    }

    /// Inserts `ch` at byte index `idx`, a character boundary, moving to the
    /// heap when the result would not fit inline.
    pub fn insert(&mut self, idx: usize, ch: char)
        requires
            idx <= old(self).bytes().len(),
            is_char_boundary(old(self).bytes(), idx as int),
        ensures
            final(self).bytes() == old(self).bytes().subrange(0, idx as int) + encode_scalar(
                ch as u32,
            ) + old(self).bytes().subrange(idx as int, old(self).bytes().len() as int),
            old(self).heap_backed() ==> final(self).heap_backed(),
            !old(self).heap_backed() ==> (final(self).heap_backed() <==> old(self).bytes().len()
                + encode_scalar(ch as u32).len() > N),
    {
        match self {
            SmartString::Heap(s) => {
                string_insert(s, idx, ch);
                return ;
            },
            SmartString::Stack(s) => match s.try_insert(idx, ch) {
                Ok(()) => {
                    return ;
                },
                Err(_) => {},
            },
        }
        self.ensure_heap_mut();
        match self {
            SmartString::Heap(s) => string_insert(s, idx, ch),
            SmartString::Stack(_) => {},
        }
    }

    /// Inserts `string` at byte index `idx`, a character boundary, moving to
    /// the heap when the result would not fit inline.
    pub fn insert_str(&mut self, idx: usize, string: &str)
        requires
            idx <= old(self).bytes().len(),
            is_char_boundary(old(self).bytes(), idx as int),
        ensures
            final(self).bytes() == old(self).bytes().subrange(0, idx as int) + string.spec_bytes()
                + old(self).bytes().subrange(idx as int, old(self).bytes().len() as int),
            old(self).heap_backed() ==> final(self).heap_backed(),
            !old(self).heap_backed() ==> (final(self).heap_backed() <==> old(self).bytes().len()
                + string.spec_bytes().len() > N),
    {
        match self {
            SmartString::Heap(s) => {
                string_insert_str(s, idx, string);
                return ;
            },
            SmartString::Stack(s) => match s.try_insert_str(idx, string) {
                Ok(()) => {
                    return ;
                },
                Err(_) => {},
            },
        }
        self.ensure_heap_mut();
        match self {
            SmartString::Heap(s) => string_insert_str(s, idx, string),
            SmartString::Stack(_) => {},
        }
    }

    /// Inserts `string` at byte index `idx`. On the heap all of it goes in and
    /// the empty rest is returned; inline, the longest whole-character prefix
    /// that fits goes in and the rest of `string` is returned. Fails, leaving
    /// the value as it was, when `idx` is past the end or inside a character.
    pub fn try_insert_str_truncated<'s>(&mut self, idx: usize, string: &'s str) -> (r: Result<
        &'s str,
        InsertError,
    >)
        ensures
            ({
                let b = old(self).bytes();
                let sb = string.spec_bytes();
                let k = if old(self).heap_backed() {
                    sb.len() as int
                } else {
                    floor_boundary(sb, N - b.len())
                };
                &&& idx > b.len() ==> r == Err::<&str, _>(
                    InsertError::OutOfBounds { idx, len: b.len() as usize },
                )
                &&& idx <= b.len() && !is_char_boundary(b, idx as int) ==> r == Err::<&str, _>(
                    InsertError::NotCharBoundary { idx },
                )
                &&& r is Ok <==> idx <= b.len() && is_char_boundary(b, idx as int)
                &&& r matches Ok(rest) ==> final(self).bytes() == b.subrange(0, idx as int)
                    + sb.subrange(0, k) + b.subrange(idx as int, b.len() as int)
                    && rest.spec_bytes() == sb.subrange(k, sb.len() as int)
                &&& r is Err ==> final(self)@ == old(self)@
                &&& final(self).heap_backed() == old(self).heap_backed()
            }),
    {
        match self {
            SmartString::Heap(s) => {
                let len = s.as_str().as_bytes().len();
                if idx > len {
                    return Err(InsertError::OutOfBounds { idx, len });
                }
                if !s.as_str().is_char_boundary(idx) {
                    return Err(InsertError::NotCharBoundary { idx });
                }
                string_insert_str(s, idx, string);
                let (all, rest) = string.split_at(string.as_bytes().len());
                proof {
                    is_char_boundary_start_end_of_seq(string.spec_bytes());
                    assert(string.spec_bytes().subrange(0, string.spec_bytes().len() as int)
                        =~= string.spec_bytes());
                }
                Ok(rest)
            },
            SmartString::Stack(s) => s.try_insert_str_truncated(idx, string),
        }
    }

    /// Inserts `string` at byte index `idx`, a character boundary, as
    /// `try_insert_str_truncated` does, and returns what did not go in.
    pub fn insert_str_truncated<'s>(&mut self, idx: usize, string: &'s str) -> (r: &'s str)
        requires
            idx <= old(self).bytes().len(),
            is_char_boundary(old(self).bytes(), idx as int),
        ensures
            ({
                let b = old(self).bytes();
                let sb = string.spec_bytes();
                let k = if old(self).heap_backed() {
                    sb.len() as int
                } else {
                    floor_boundary(sb, N - b.len())
                };
                &&& final(self).bytes() == b.subrange(0, idx as int) + sb.subrange(0, k)
                    + b.subrange(idx as int, b.len() as int)
                &&& r.spec_bytes() == sb.subrange(k, sb.len() as int)
                &&& final(self).heap_backed() == old(self).heap_backed()
            }),
    {
        match self.try_insert_str_truncated(idx, string) {
            Ok(rest) => rest,
            Err(_) => {
                assert(false);
                string
            },
        }
    }

    /// Removes the character that starts at byte index `idx`, a boundary before
    /// the end, and returns it. The storage stays as it was.
    pub fn remove(&mut self, idx: usize) -> (r: char)
        requires
            idx < old(self).bytes().len(),
            is_char_boundary(old(self).bytes(), idx as int),
        ensures
            ({
                let b = old(self).bytes();
                &&& r == decode_utf8(b.subrange(idx as int, b.len() as int))[0]
                &&& final(self).bytes() == b.subrange(0, idx as int) + b.subrange(
                    idx + encode_scalar(r as u32).len(),
                    b.len() as int,
                )
            }),
            final(self).heap_backed() == old(self).heap_backed(),
    {
        match self {
            SmartString::Heap(s) => string_remove(s, idx),
            SmartString::Stack(s) => s.remove(idx),
        }
    }

    /// Splits the content at byte index `at`, a character boundary: this value
    /// keeps the part before, in the storage it had, and the part from `at` on
    /// is returned, inline when it fits.
    pub fn split_off(&mut self, at: usize) -> (r: Self)
        requires
            is_char_boundary(old(self).bytes(), at as int),
        ensures
            final(self).bytes() == old(self).bytes().subrange(0, at as int),
            r.bytes() == old(self).bytes().subrange(at as int, old(self).bytes().len() as int),
            final(self).heap_backed() == old(self).heap_backed(),
            r.heap_backed() <==> !Self::fits_inline(r.bytes().len() as int),
    {
        match self {
            SmartString::Heap(s) => {
                let other = string_split_off(s, at);
                SmartString::Heap(other).try_into_stack()
            },
            SmartString::Stack(s) => {
                proof {
                    crate::text::lemma_boundary_in_range(s.bytes(), at as int);
                }
                let (_, suffix) = s.as_str().split_at(at);
                let other = Self::from_str_slice(suffix);
                s.truncate(at);
                other
            },
        }
    }

    /// Replaces the bytes `range.start..range.end`, both character boundaries,
    /// by `replace_with`, moving to the heap when the result would not fit inline.
    pub fn replace_range(&mut self, range: core::ops::Range<usize>, replace_with: &str)
        requires
            range.start <= range.end,
            is_char_boundary(old(self).bytes(), range.start as int),
            is_char_boundary(old(self).bytes(), range.end as int),
        ensures
            final(self).bytes() == old(self).bytes().subrange(0, range.start as int)
                + replace_with.spec_bytes() + old(self).bytes().subrange(
                range.end as int,
                old(self).bytes().len() as int,
            ),
            old(self).heap_backed() ==> final(self).heap_backed(),
            !old(self).heap_backed() ==> (final(self).heap_backed() <==> old(self).bytes().len()
                - (range.end - range.start) + replace_with.spec_bytes().len() > N),
    {
        let start = range.start;
        let end = range.end;
        let ghost b = self.bytes();
        proof {
            crate::text::lemma_boundary_in_range(b, end as int);
        }
        match self {
            SmartString::Heap(s) => {
                string_replace_range(s, start, end, replace_with);
                return ;
            },
            SmartString::Stack(s) => {
                let cap = s.capacity();
                let len = s.len();
                if replace_with.as_bytes().len() <= cap && len - (end - start) <= cap - replace_with.as_bytes().len() {
                    let (pre, rest) = s.as_str().split_at(start);
                    let (_, post) = s.as_str().split_at(end);
                    proof {
                        crate::text::lemma_split(b, start as int);
                        crate::text::lemma_split(b, end as int);
                        lemma_encode_concat(pre@, replace_with@);
                        lemma_encode_concat(pre@ + replace_with@, post@);
                    }
                    let mut p = PascalString::<N>::new();
                    p.push_str_expect_capacity(pre);
                    p.push_str_expect_capacity(replace_with);
                    p.push_str_expect_capacity(post);
                    proof {
                        assert(Seq::<char>::empty() + pre@ =~= pre@);
                    }
                    *s = p;
                    return ;
                }
            },
        }
        self.ensure_heap_mut();
        match self {
            SmartString::Heap(s) => string_replace_range(s, start, end, replace_with),
            SmartString::Stack(_) => {},
        }
    }

    /// Keeps the characters for which `f` answers true, in order; the storage
    /// stays as it is.
    pub fn retain<F>(&mut self, mut f: F)
        where
            F: FnMut(char) -> bool,
        requires
            forall|c: char| call_requires(f, (c,)),
        ensures
            final(self).heap_backed() == old(self).heap_backed(),
            exists|keep: Seq<bool>|
                {
                    &&& keep.len() == old(self)@.len()
                    &&& forall|i: int|
                        0 <= i < keep.len() ==> call_ensures(f, (old(self)@[i],), keep[i])
                    &&& final(self)@ == kept(old(self)@, keep)
                },
    {
        self.inline_len_bound();
        let ghost text = self@;
        let ghost n = text.len();
        let ghost f0 = f;
        let mut out = String::new();
        let ghost mut keep: Seq<bool> = Seq::empty();
        let ghost mut i: int = 0;
        {
            let content = self.as_str();
            let mut it = content.chars();
            loop
                invariant
                    0 <= i <= n,
                    n == text.len(),
                    keep.len() == i,
                    it.remaining() == text.subrange(i, n as int),
                    it.obeys_prophetic_iter_laws(),
                    out@ == kept(text.subrange(0, i), keep),
                    f == f0,
                    forall|j: int| 0 <= j < i ==> call_ensures(f0, (text[j],), keep[j]),
                    forall|c: char| call_requires(f0, (c,)),
                ensures
                    i == n,
                    keep.len() == n,
                    out@ == kept(text.subrange(0, i), keep),
                    forall|j: int| 0 <= j < n ==> call_ensures(f0, (text[j],), keep[j]),
                decreases n - i,
            {
                match it.next() {
                    None => {
                        proof {
                            assert(text.subrange(i, n as int).len() == 0);
                        }
                        break;
                    },
                    Some(c) => {
                        let yes = f(c);
                        proof {
                            let next = keep.push(yes);
                            let pre = text.subrange(0, i + 1);
                            assert(pre.drop_last() =~= text.subrange(0, i));
                            assert(next.drop_last() =~= keep);
                            assert(pre.last() == c);
                        }
                        if yes {
                            string_push(&mut out, c);
                        }
                        proof {
                            keep = keep.push(yes);
                            i = i + 1;
                            assert(text.subrange(i, n as int) =~= text.subrange(i - 1, n as int).drop_first());
                        }
                    },
                }
            }
        }
        proof {
            assert(text.subrange(0, n as int) =~= text);
            lemma_kept_len(text, keep);
        }
        let ghost witness = keep;
        match self {
            SmartString::Heap(s) => {
                *s = out;
            },
            SmartString::Stack(s) => {
                let _ = s.capacity();
                match PascalString::try_from(out.as_str()) {
                    Ok(p) => {
                        *s = p;
                    },
                    Err(_) => {
                        assert(false);
                    },
                }
            },
        }
        assert(witness.len() == old(self)@.len());
        assert(self@ == kept(old(self)@, witness));
    }

    /// Appends each of `chars` in turn, moving to the heap once the content no
    /// longer fits inline.
    pub fn extend_chars(&mut self, chars: &[char])
        ensures
            final(self)@ == old(self)@ + chars@,
            old(self).heap_backed() ==> final(self).heap_backed(),
            !old(self).heap_backed() ==> (final(self).heap_backed() <==> final(self).bytes().len()
                > N),
    {
        self.inline_len_bound();
        let mut i: usize = 0;
        proof {
            assert(old(self)@ + chars@.subrange(0, 0) =~= old(self)@);
        }
        while i < chars.len()
            invariant
                i <= chars@.len(),
                self@ == old(self)@ + chars@.subrange(0, i as int),
                old(self).heap_backed() ==> self.heap_backed(),
                !old(self).heap_backed() ==> (self.heap_backed() <==> self.bytes().len() > N),
            decreases chars@.len() - i,
        {
            let ghost before = *self;
            self.push(chars[i]);
            proof {
                assert(old(self)@ + chars@.subrange(0, i + 1) =~= before@.push(chars@[i as int]));
                lemma_encode_concat(before@, seq![chars@[i as int]]);
                lemma_encode_single(chars@[i as int]);
                assert(before@ + seq![chars@[i as int]] =~= self@);
            }
            i = i + 1;
        }
        proof {
            assert(chars@.subrange(0, chars@.len() as int) =~= chars@);
        }
    }

    /// Appends each of `strs` in turn, moving to the heap once the content no
    /// longer fits inline.
    pub fn extend_strs(&mut self, strs: &[&str])
        ensures
            final(self)@ == old(self)@ + strs@.fold_left(Seq::<char>::empty(), |acc: Seq<char>, t: &str| acc + t@),
            old(self).heap_backed() ==> final(self).heap_backed(),
            !old(self).heap_backed() ==> (final(self).heap_backed() <==> final(self).bytes().len()
                > N),
    {
        self.inline_len_bound();
        let mut i: usize = 0;
        proof {
            assert(old(self)@ + Seq::<char>::empty() =~= old(self)@);
        }
        while i < strs.len()
            invariant
                i <= strs@.len(),
                self@ == old(self)@ + strs@.subrange(0, i as int).fold_left(Seq::<char>::empty(), |acc: Seq<char>, t: &str| acc + t@),
                old(self).heap_backed() ==> self.heap_backed(),
                !old(self).heap_backed() ==> (self.heap_backed() <==> self.bytes().len() > N),
            decreases strs@.len() - i,
        {
            let ghost before = *self;
            self.push_str(strs[i]);
            proof {
                let f = |acc: Seq<char>, t: &str| acc + t@;
                let pre = strs@.subrange(0, i as int);
                let next = strs@.subrange(0, i + 1);
                assert(next.drop_last() =~= pre);
                assert(next.last() == strs@[i as int]);
                assert(next.fold_left(Seq::<char>::empty(), f) == pre.fold_left(Seq::<char>::empty(), f) + strs@[i as int]@);
                lemma_encode_concat(before@, strs@[i as int]@);
                assert(old(self)@ + (pre.fold_left(Seq::<char>::empty(), f) + strs@[i as int]@) =~= before@ + strs@[i as int]@);
            }
            i = i + 1;
        }
        proof {
            assert(strs@.subrange(0, strs@.len() as int) =~= strs@);
        }
    }

    /// Releases unused heap room; the content and storage stay as they were.
    pub fn shrink_to_fit(&mut self)
        ensures
            final(self)@ == old(self)@,
            final(self).heap_backed() == old(self).heap_backed(),
    {
        match self {
            SmartString::Heap(s) => string_shrink_to_fit(s),
            SmartString::Stack(_) => {},
        }
    }

    /// Releases heap room down to `min_capacity`; the content and storage stay
    /// as they were.
    pub fn shrink_to(&mut self, min_capacity: usize)
        ensures
            final(self)@ == old(self)@,
            final(self).heap_backed() == old(self).heap_backed(),
    {
        match self {
            SmartString::Heap(s) => string_shrink_to(s, min_capacity),
            SmartString::Stack(_) => {},
        }
    }
}

impl<const N: usize> SmartString<N> {
    /// A string holding `s`: inline when it fits, otherwise on the heap.
    fn from_str_slice(s: &str) -> (r: Self)
        ensures
            r@ == s@,
            r.heap_backed() <==> !Self::fits_inline(s.spec_bytes().len() as int),
    {
        match PascalString::try_from(s) {
            Ok(p) => SmartString::Stack(p),
            Err(TryFromStrError::TooLong) => SmartString::Heap(s.to_owned()),
        }
    }
}

impl<const N: usize> Default for SmartString<N> {
    /// An empty string, inline whenever `N` allows one.
    fn default() -> (r: Self)
        ensures
            r@ == Seq::<char>::empty(),
            r.heap_backed() <==> N > 255,
    {
        if N <= 255 {
            Self::new()
        } else {
            SmartString::Heap(String::new())
        }
    }
}

impl<'a, const N: usize> From<&'a str> for SmartString<N> {
    /// Inline when `s` fits, otherwise on the heap.
    fn from(s: &'a str) -> (r: Self)
        ensures
            r@ == s@,
            r.heap_backed() <==> !Self::fits_inline(s.spec_bytes().len() as int),
    {
        Self::from_str_slice(s)
    }
}

impl<'a, const N: usize> vstd::std_specs::convert::FromSpecImpl<&'a str> for SmartString<N> {
    // The contract is stated on `from` itself.
    open spec fn obeys_from_spec() -> bool {
        false
    }

    open spec fn from_spec(v: &'a str) -> Self {
        arbitrary()
    }
}

impl<'a, const N: usize> From<&'a String> for SmartString<N> {
    /// Inline when `s` fits, otherwise on the heap.
    fn from(s: &'a String) -> (r: Self)
        ensures
            r@ == s@,
            r.heap_backed() <==> !Self::fits_inline(encode_utf8(s@).len() as int),
    {
        Self::from_str_slice(s.as_str())
    }
}

impl<'a, const N: usize> vstd::std_specs::convert::FromSpecImpl<&'a String> for SmartString<N> {
    // The contract is stated on `from` itself.
    open spec fn obeys_from_spec() -> bool {
        false
    }

    open spec fn from_spec(v: &'a String) -> Self {
        arbitrary()
    }
}

impl<const N: usize> From<String> for SmartString<N> {
    /// Keeps `s` on the heap.
    fn from(s: String) -> (r: Self)
        ensures
            r == SmartString::<N>::Heap(s),
    {
        SmartString::Heap(s)
    }
}

impl<const N: usize> vstd::std_specs::convert::FromSpecImpl<String> for SmartString<N> {
    open spec fn obeys_from_spec() -> bool {
        true
    }

    open spec fn from_spec(v: String) -> Self {
        SmartString::Heap(v)
    }
}

impl<const N: usize> From<char> for SmartString<N> {
    /// Inline when the character fits, otherwise on the heap.
    fn from(ch: char) -> (r: Self)
        ensures
            r@ == seq![ch],
            r.heap_backed() <==> !Self::fits_inline(encode_scalar(ch as u32).len() as int),
    {
        let mut s = Self::default();
        proof {
            lemma_encode_single(ch);
            assert(Seq::<char>::empty().push(ch) =~= seq![ch]);
        }
        s.push(ch);
        s
    }
}

impl<const N: usize> vstd::std_specs::convert::FromSpecImpl<char> for SmartString<N> {
    // The contract is stated on `from` itself.
    open spec fn obeys_from_spec() -> bool {
        false
    }

    open spec fn from_spec(v: char) -> Self {
        arbitrary()
    }
}

impl<const M: usize, const N: usize> From<PascalString<M>> for SmartString<N> {
    /// Inline when the content fits into `N` bytes, otherwise on the heap.
    fn from(s: PascalString<M>) -> (r: Self)
        ensures
            r@ == s@,
            r.heap_backed() <==> !Self::fits_inline(s.bytes().len() as int),
    {
        Self::from_str_slice(s.as_str())
    }
}

impl<const M: usize, const N: usize> vstd::std_specs::convert::FromSpecImpl<PascalString<M>> for SmartString<N> {
    // The contract is stated on `from` itself.
    open spec fn obeys_from_spec() -> bool {
        false
    }

    open spec fn from_spec(v: PascalString<M>) -> Self {
        arbitrary()
    }
}

impl<const N: usize> From<Box<str>> for SmartString<N> {
    /// Inline when `s` fits, otherwise on the heap.
    fn from(s: Box<str>) -> (r: Self)
        ensures
            r@ == s@,
            r.heap_backed() <==> !Self::fits_inline(encode_utf8(s@).len() as int),
    {
        Self::from_str_slice(&*s)
    }
}

impl<const N: usize> vstd::std_specs::convert::FromSpecImpl<Box<str>> for SmartString<N> {
    // The contract is stated on `from` itself.
    open spec fn obeys_from_spec() -> bool {
        false
    }

    open spec fn from_spec(v: Box<str>) -> Self {
        arbitrary()
    }
}

impl<'a, const N: usize> From<&'a Box<str>> for SmartString<N> {
    /// Inline when `s` fits, otherwise on the heap.
    fn from(s: &'a Box<str>) -> (r: Self)
        ensures
            r@ == s@,
            r.heap_backed() <==> !Self::fits_inline(encode_utf8(s@).len() as int),
    {
        Self::from_str_slice(&**s)
    }
}

impl<'a, const N: usize> vstd::std_specs::convert::FromSpecImpl<&'a Box<str>> for SmartString<N> {
    // The contract is stated on `from` itself.
    open spec fn obeys_from_spec() -> bool {
        false
    }

    open spec fn from_spec(v: &'a Box<str>) -> Self {
        arbitrary()
    }
}

impl<const N: usize> From<std::rc::Rc<str>> for SmartString<N> {
    /// Inline when the content fits, otherwise on the heap.
    fn from(s: std::rc::Rc<str>) -> (r: Self)
        ensures
            r@ == (*s)@,
            r.heap_backed() <==> !Self::fits_inline(encode_utf8((*s)@).len() as int),
    {
        Self::from_str_slice(&*s)
    }
}

impl<const N: usize> vstd::std_specs::convert::FromSpecImpl<std::rc::Rc<str>> for SmartString<N> {
    // The contract is stated on `from` itself.
    open spec fn obeys_from_spec() -> bool {
        false
    }

    open spec fn from_spec(v: std::rc::Rc<str>) -> Self {
        arbitrary()
    }
}

impl<'a, const N: usize> From<&'a std::rc::Rc<str>> for SmartString<N> {
    /// Inline when the content fits, otherwise on the heap.
    fn from(s: &'a std::rc::Rc<str>) -> (r: Self)
        ensures
            r@ == (**s)@,
            r.heap_backed() <==> !Self::fits_inline(encode_utf8((**s)@).len() as int),
    {
        Self::from_str_slice(&**s)
    }
}

impl<'a, const N: usize> vstd::std_specs::convert::FromSpecImpl<&'a std::rc::Rc<str>> for SmartString<N> {
    // The contract is stated on `from` itself.
    open spec fn obeys_from_spec() -> bool {
        false
    }

    open spec fn from_spec(v: &'a std::rc::Rc<str>) -> Self {
        arbitrary()
    }
}

impl<const N: usize> From<std::sync::Arc<str>> for SmartString<N> {
    /// Inline when the content fits, otherwise on the heap.
    fn from(s: std::sync::Arc<str>) -> (r: Self)
        ensures
            r@ == (*s)@,
            r.heap_backed() <==> !Self::fits_inline(encode_utf8((*s)@).len() as int),
    {
        Self::from_str_slice(&*s)
    }
}

impl<const N: usize> vstd::std_specs::convert::FromSpecImpl<std::sync::Arc<str>> for SmartString<N> {
    // The contract is stated on `from` itself.
    open spec fn obeys_from_spec() -> bool {
        false
    }

    open spec fn from_spec(v: std::sync::Arc<str>) -> Self {
        arbitrary()
    }
}

impl<'a, const N: usize> From<&'a std::sync::Arc<str>> for SmartString<N> {
    /// Inline when the content fits, otherwise on the heap.
    fn from(s: &'a std::sync::Arc<str>) -> (r: Self)
        ensures
            r@ == (**s)@,
            r.heap_backed() <==> !Self::fits_inline(encode_utf8((**s)@).len() as int),
    {
        Self::from_str_slice(&**s)
    }
}

impl<'a, const N: usize> vstd::std_specs::convert::FromSpecImpl<&'a std::sync::Arc<str>> for SmartString<N> {
    // The contract is stated on `from` itself.
    open spec fn obeys_from_spec() -> bool {
        false
    }

    open spec fn from_spec(v: &'a std::sync::Arc<str>) -> Self {
        arbitrary()
    }
}

impl<'a, const N: usize> From<std::borrow::Cow<'a, str>> for SmartString<N> {
    /// An owned string stays on the heap; a borrowed one goes inline when it fits.
    fn from(s: std::borrow::Cow<'a, str>) -> (r: Self)
        ensures
            r@ == s@,
            s is Owned ==> r.heap_backed(),
            s is Borrowed ==> (r.heap_backed() <==> !Self::fits_inline(
                encode_utf8(s@).len() as int,
            )),
    {
        match s {
            std::borrow::Cow::Borrowed(b) => Self::from_str_slice(b),
            std::borrow::Cow::Owned(o) => SmartString::Heap(o),
        }
    }
}

impl<'a, const N: usize> vstd::std_specs::convert::FromSpecImpl<std::borrow::Cow<'a, str>> for SmartString<N> {
    // The contract is stated on `from` itself.
    open spec fn obeys_from_spec() -> bool {
        false
    }

    open spec fn from_spec(v: std::borrow::Cow<'a, str>) -> Self {
        arbitrary()
    }
}

impl<'a, 'b, const N: usize> From<&'b std::borrow::Cow<'a, str>> for SmartString<N> {
    /// Inline when the content fits, otherwise on the heap.
    fn from(s: &'b std::borrow::Cow<'a, str>) -> (r: Self)
        ensures
            r@ == s@,
            r.heap_backed() <==> !Self::fits_inline(encode_utf8(s@).len() as int),
    {
        match s {
            std::borrow::Cow::Borrowed(b) => Self::from_str_slice(b),
            std::borrow::Cow::Owned(o) => Self::from_str_slice(o.as_str()),
        }
    }
}

impl<'a, 'b, const N: usize> vstd::std_specs::convert::FromSpecImpl<&'b std::borrow::Cow<'a, str>> for SmartString<N> {
    // The contract is stated on `from` itself.
    open spec fn obeys_from_spec() -> bool {
        false
    }

    open spec fn from_spec(v: &'b std::borrow::Cow<'a, str>) -> Self {
        arbitrary()
    }
}

impl<const N: usize> From<SmartString<N>> for String {
    /// The same content.
    fn from(s: SmartString<N>) -> (r: String)
        ensures
            r@ == s@,
    {
        s.into_string()
    }
}

impl<const N: usize> vstd::std_specs::convert::FromSpecImpl<SmartString<N>> for String {
    // The contract is stated on `from` itself.
    open spec fn obeys_from_spec() -> bool {
        false
    }

    open spec fn from_spec(v: SmartString<N>) -> Self {
        arbitrary()
    }
}

impl<const N: usize> From<SmartString<N>> for Box<str> {
    /// The same content.
    fn from(s: SmartString<N>) -> (r: Box<str>)
        ensures
            r@ == s@,
    {
        s.into_boxed_str()
    }
}

impl<const N: usize> vstd::std_specs::convert::FromSpecImpl<SmartString<N>> for Box<str> {
    // The contract is stated on `from` itself.
    open spec fn obeys_from_spec() -> bool {
        false
    }

    open spec fn from_spec(v: SmartString<N>) -> Self {
        arbitrary()
    }
}

impl<const N: usize> From<SmartString<N>> for Vec<u8> {
    /// The UTF-8 bytes of the content.
    fn from(s: SmartString<N>) -> (r: Vec<u8>)
        ensures
            r@ == s.bytes(),
    {
        s.into_bytes()
    }
}

impl<const N: usize> vstd::std_specs::convert::FromSpecImpl<SmartString<N>> for Vec<u8> {
    // The contract is stated on `from` itself.
    open spec fn obeys_from_spec() -> bool {
        false
    }

    open spec fn from_spec(v: SmartString<N>) -> Self {
        arbitrary()
    }
}

impl<const N: usize> From<SmartString<N>> for std::rc::Rc<str> {
    /// The same content, in a shared allocation.
    fn from(s: SmartString<N>) -> (r: std::rc::Rc<str>)
        ensures
            (*r)@ == s@,
    {
        rc_str_from_string(s.into_string())
    }
}

impl<const N: usize> vstd::std_specs::convert::FromSpecImpl<SmartString<N>> for std::rc::Rc<str> {
    // The contract is stated on `from` itself.
    open spec fn obeys_from_spec() -> bool {
        false
    }

    open spec fn from_spec(v: SmartString<N>) -> Self {
        arbitrary()
    }
}

impl<const N: usize> From<SmartString<N>> for std::sync::Arc<str> {
    /// The same content, in a shared allocation.
    fn from(s: SmartString<N>) -> (r: std::sync::Arc<str>)
        ensures
            (*r)@ == s@,
    {
        arc_str_from_string(s.into_string())
    }
}

impl<const N: usize> vstd::std_specs::convert::FromSpecImpl<SmartString<N>> for std::sync::Arc<str> {
    // The contract is stated on `from` itself.
    open spec fn obeys_from_spec() -> bool {
        false
    }

    open spec fn from_spec(v: SmartString<N>) -> Self {
        arbitrary()
    }
}

impl<const N: usize> PartialEq for SmartString<N> {
    fn eq(&self, other: &Self) -> (r: bool) {
        let r = equal_bytes(self.as_str().as_bytes(), other.as_str().as_bytes());
        proof {
            encode_utf8_decode_utf8(self@);
            encode_utf8_decode_utf8(other@);
        }
        r
    }
}

impl<const N: usize> vstd::std_specs::cmp::PartialEqSpecImpl for SmartString<N> {
    open spec fn obeys_eq_spec() -> bool {
        true
    }

    open spec fn eq_spec(&self, other: &Self) -> bool {
        self@ == other@
    }
}

impl<const N: usize> Eq for SmartString<N> {

}

impl<const N: usize> PartialEq<String> for SmartString<N> {
    fn eq(&self, other: &String) -> (r: bool) {
        let r = equal_bytes(self.as_str().as_bytes(), other.as_str().as_bytes());
        proof {
            encode_utf8_decode_utf8(self@);
            encode_utf8_decode_utf8(other@);
        }
        r
    }
}

impl<const N: usize> vstd::std_specs::cmp::PartialEqSpecImpl<String> for SmartString<N> {
    open spec fn obeys_eq_spec() -> bool {
        true
    }

    open spec fn eq_spec(&self, other: &String) -> bool {
        self@ == other@
    }
}

impl<'a, const N: usize> PartialEq<&'a str> for SmartString<N> {
    fn eq(&self, other: &&'a str) -> (r: bool) {
        let r = equal_bytes(self.as_str().as_bytes(), other.as_bytes());
        proof {
            encode_utf8_decode_utf8(self@);
            encode_utf8_decode_utf8(other@);
        }
        r
    }
}

impl<'a, const N: usize> vstd::std_specs::cmp::PartialEqSpecImpl<&'a str> for SmartString<N> {
    open spec fn obeys_eq_spec() -> bool {
        true
    }

    open spec fn eq_spec(&self, other: &&'a str) -> bool {
        self@ == other@
    }
}

impl<const N: usize> PartialOrd for SmartString<N> {
    fn partial_cmp(&self, other: &Self) -> (r: Option<core::cmp::Ordering>) {
        Some(compare_bytes(self.as_str().as_bytes(), other.as_str().as_bytes()))
    }
}

impl<const N: usize> vstd::std_specs::cmp::PartialOrdSpecImpl for SmartString<N> {
    open spec fn obeys_partial_cmp_spec() -> bool {
        true
    }

    open spec fn partial_cmp_spec(&self, other: &Self) -> Option<core::cmp::Ordering> {
        Some(lex_cmp(self.bytes(), other.bytes()))
    }
}

impl<const N: usize> core::hash::Hash for SmartString<N> {
    /// Relies on `str`'s `Hash`: the content hashes as the equal `str` does.
    #[verifier::external_body]
    fn hash<H: core::hash::Hasher>(&self, state: &mut H) {
        self.as_str().hash(state)
    }
}

impl<const N: usize> core::str::FromStr for SmartString<N> {
    type Err = core::convert::Infallible;

    /// Inline when `s` fits, otherwise on the heap; never fails.
    fn from_str(s: &str) -> (r: Result<Self, core::convert::Infallible>)
        ensures
            r matches Ok(v) && v@ == s@ && (v.heap_backed() <==> !Self::fits_inline(
                s.spec_bytes().len() as int,
            )),
    {
        Ok(Self::from_str_slice(s))
    }
}

impl<const N: usize> core::convert::AsRef<str> for SmartString<N> {
    /// The content as a string slice.
    fn as_ref(&self) -> &str {
        self.as_str()
    }
}

impl<const N: usize> core::convert::AsRef<[u8]> for SmartString<N> {
    /// The UTF-8 bytes of the content.
    fn as_ref(&self) -> &[u8] {
        self.as_str().as_bytes()
    }
}

impl<const N: usize> core::borrow::Borrow<str> for SmartString<N> {
    /// The content as a string slice; it compares and hashes as the value does.
    fn borrow(&self) -> &str {
        self.as_str()
    }
}

impl<const N: usize> PartialEq<SmartString<N>> for String {
    fn eq(&self, other: &SmartString<N>) -> (r: bool) {
        let r = equal_bytes(self.as_str().as_bytes(), other.as_str().as_bytes());
        proof {
            encode_utf8_decode_utf8(self@);
            encode_utf8_decode_utf8(other@);
        }
        r
    }
}

impl<const N: usize> vstd::std_specs::cmp::PartialEqSpecImpl<SmartString<N>> for String {
    open spec fn obeys_eq_spec() -> bool {
        true
    }

    open spec fn eq_spec(&self, other: &SmartString<N>) -> bool {
        self@ == other@
    }
}

impl<'a, const N: usize> PartialEq<SmartString<N>> for &'a str {
    fn eq(&self, other: &SmartString<N>) -> (r: bool) {
        let r = equal_bytes(self.as_bytes(), other.as_str().as_bytes());
        proof {
            encode_utf8_decode_utf8(self@);
            encode_utf8_decode_utf8(other@);
        }
        r
    }
}

impl<'a, const N: usize> vstd::std_specs::cmp::PartialEqSpecImpl<SmartString<N>> for &'a str {
    open spec fn obeys_eq_spec() -> bool {
        true
    }

    open spec fn eq_spec(&self, other: &SmartString<N>) -> bool {
        self@ == other@
    }
}

impl<'a, const N: usize> From<&'a mut str> for SmartString<N> {
    /// Inline when `s` fits, otherwise on the heap.
    fn from(s: &'a mut str) -> (r: Self)
        ensures
            r@ == old(s)@,
            final(s)@ == old(s)@,
            r.heap_backed() <==> !Self::fits_inline(old(s).spec_bytes().len() as int),
    {
        Self::from_str_slice(s)
    }
}

impl<'a, const N: usize> vstd::std_specs::convert::FromSpecImpl<&'a mut str> for SmartString<N> {
    // The contract is stated on `from` itself.
    open spec fn obeys_from_spec() -> bool {
        false
    }

    open spec fn from_spec(v: &'a mut str) -> Self {
        arbitrary()
    }
}

impl<const N: usize> core::ops::Deref for SmartString<N> {
    type Target = str;

    /// The content as a string slice.
    fn deref(&self) -> (r: &str)
        ensures
            r@ == self@,
    {
        self.as_str()
    }
}

impl<const N: usize> core::fmt::Write for SmartString<N> {
    /// Appends `s`; never fails.
    fn write_str(&mut self, s: &str) -> (r: core::fmt::Result)
        ensures
            r is Ok,
            final(self)@ == old(self)@ + s@,
            old(self).heap_backed() ==> final(self).heap_backed(),
    {
        self.push_str(s);
        Ok(())
    }
}

impl<'a, const N: usize> core::ops::Add<&'a str> for SmartString<N> {
    type Output = Self;

    /// The content followed by `rhs`.
    fn add(self, rhs: &'a str) -> (r: Self)
        ensures
            r@ == self@ + rhs@,
    {
        let mut s = self;
        s.push_str(rhs);
        s
    }
}

impl<'a, const N: usize> vstd::std_specs::ops::AddSpecImpl<&'a str> for SmartString<N> {
    // The contract is stated on `add` itself.
    open spec fn obeys_add_spec() -> bool {
        false
    }

    open spec fn add_req(self, rhs: &'a str) -> bool {
        true
    }

    open spec fn add_spec(self, rhs: &'a str) -> Self {
        arbitrary()
    }
}

impl<'a, const N: usize> core::ops::AddAssign<&'a str> for SmartString<N> {
    /// Appends `rhs`.
    fn add_assign(&mut self, rhs: &'a str)
        ensures
            final(self)@ == old(self)@ + rhs@,
            old(self).heap_backed() ==> final(self).heap_backed(),
    {
        self.push_str(rhs)
    }
}

} // verus!
