use vstd::prelude::*;
use vstd::slice::slice_subrange;
use vstd::string::StringSliceAdditionalSpecFns;
use vstd::utf8::*;

use crate::std_calls::str_from_utf8;
use crate::text::{compare_bytes, encode_char, equal_bytes, floor_boundary, lex_cmp, floor_char_boundary, lemma_boundary_concat,
    lemma_char_at, lemma_encode_concat, lemma_encode_single, lemma_floor_boundary, lemma_split};

mod error;

pub use error::{InsertError, RemoveError, TryFromBytesError, TryFromStrError};

verus! {

broadcast use {vstd::utf8::group_utf8_lib, vstd::string::group_string_axioms};

/// A string of at most `CAPACITY` bytes stored inline: a length byte and a
/// fixed buffer whose first `len` bytes are the content, always valid UTF-8.
/// `CAPACITY` must not exceed 255.
#[derive(Clone, Copy, Debug)]
pub struct PascalString<const CAPACITY: usize> {
    len: u8,
    data: [u8; CAPACITY],
}

impl<const CAPACITY: usize> View for PascalString<CAPACITY> {
    type V = Seq<char>;

    /// The characters of the content.
    closed spec fn view(&self) -> Seq<char> {
        decode_utf8(self.raw())
    }
}

impl<const CAPACITY: usize> PascalString<CAPACITY> {
    #[verifier::type_invariant]
    spec fn inv(self) -> bool {
        &&& CAPACITY <= 255
        &&& self.len as nat <= CAPACITY
        &&& valid_utf8(self.raw())
    }

    /// The occupied prefix of the buffer.
    closed spec fn raw(&self) -> Seq<u8> {
        self.data@.subrange(0, self.len as int)
    }

    /// The UTF-8 bytes of the content.
    pub open spec fn bytes(&self) -> Seq<u8> {
        encode_utf8(self@)
    }

    proof fn lemma_raw(&self)
        requires
            self.inv(),
        ensures
            self.bytes() == self.raw(),
            self.raw().len() == self.len as nat,
            self.len as nat <= CAPACITY <= 255,
            valid_utf8(self.bytes()),
    {
    }

    /// Replaces the bytes `start..end` of the content by `src`.
    fn splice(&mut self, start: usize, end: usize, src: &[u8])
        requires
            start <= end <= old(self).bytes().len(),
            is_char_boundary(old(self).bytes(), start as int),
            is_char_boundary(old(self).bytes(), end as int),
            valid_utf8(src@),
            old(self).bytes().len() - (end - start) + src@.len() <= CAPACITY,
        ensures
            final(self).bytes() == old(self).bytes().subrange(0, start as int) + src@
                + old(self).bytes().subrange(end as int, old(self).bytes().len() as int),
    {
        proof {
            use_type_invariant(&*self);
            self.lemma_raw();
        }
        let ghost raw = self.raw();
        let len = self.len as usize;
        let n = src.len();
        let old_data = self.data;
        let mut data = self.data;
        let mut k: usize = 0;
        while k < n
            invariant
                k <= n,
                n == src@.len(),
                start + n <= CAPACITY,
                data@.len() == CAPACITY,
                old_data@.len() == CAPACITY,
                forall|j: int| 0 <= j < start ==> data@[j] == old_data@[j],
                forall|j: int| start <= j < start + k ==> data@[j] == src@[j - start],
            decreases n - k,
        {
            data[start + k] = src[k];
            k = k + 1;
        }
        let tail = len - end;
        let mut k: usize = 0;
        while k < tail
            invariant
                k <= tail,
                tail == len - end,
                end <= len <= CAPACITY,
                n == src@.len(),
                start + n + tail <= CAPACITY,
                data@.len() == CAPACITY,
                old_data@.len() == CAPACITY,
                forall|j: int| 0 <= j < start ==> data@[j] == old_data@[j],
                forall|j: int| start <= j < start + n ==> data@[j] == src@[j - start],
                forall|j: int|
                    start + n <= j < start + n + k ==> data@[j] == old_data@[end + j - start
                        - n],
            decreases tail - k,
        {
            data[start + n + k] = old_data[end + k];
            k = k + 1;
        }
        let new_len = start + n + tail;
        proof {
            let pre = raw.subrange(0, start as int);
            let post = raw.subrange(end as int, raw.len() as int);
            lemma_split(raw, start as int);
            lemma_split(raw, end as int);
            lemma_boundary_concat(pre, src@);
            lemma_boundary_concat(pre + src@, post);
            assert(data@.subrange(0, new_len as int) =~= pre + src@ + post);
        }
        *self = PascalString { len: new_len as u8, data };
        proof {
            use_type_invariant(&*self);
            self.lemma_raw();
        }
    }

    /// An empty string.
    pub fn new() -> (r: Self)
        requires
            CAPACITY <= 255,
        ensures
            r@ == Seq::<char>::empty(),
    {
        let r = PascalString { len: 0, data: [0u8; CAPACITY] };
        assert(r.raw() =~= Seq::<u8>::empty());
        r
    }

    /// The number of bytes the buffer can hold.
    pub fn capacity(&self) -> (r: usize)
        ensures
            r == CAPACITY,
            r <= 255,
    {
        proof {
            use_type_invariant(self);
        }
        CAPACITY
    }

    /// The length of the content in bytes.
    pub fn len(&self) -> (r: usize)
        ensures
            r == self.bytes().len(),
            r <= CAPACITY,
    {
        proof {
            use_type_invariant(self);
            self.lemma_raw();
        }
        self.len as usize
    }

    /// Whether the content is empty.
    pub fn is_empty(&self) -> (r: bool)
        ensures
            r == (self@.len() == 0),
    {
        proof {
            use_type_invariant(self);
            self.lemma_raw();
            if self@.len() != 0 {
                lemma_encode_concat(seq![self@[0]], self@.drop_first());
                assert(seq![self@[0]] + self@.drop_first() =~= self@);
                lemma_encode_single(self@[0]);
            }
        }
        self.len == 0
    }

    /// The content as a string slice.
    pub fn as_str(&self) -> (r: &str)
        ensures
            r@ == self@,
    {
        proof {
            use_type_invariant(self);
            self.lemma_raw();
        }
        let bytes = slice_subrange(self.data.as_slice(), 0, self.len as usize);
        match str_from_utf8(bytes) {
            Ok(s) => s,
            Err(_) => {
                assert(false);
                ""
            },
        }
    }

    /// Whether byte index `idx` of the content is a character boundary.
    fn is_boundary(&self, idx: usize) -> (r: bool)
        ensures
            r == is_char_boundary(self.bytes(), idx as int),
    {
        self.as_str().is_char_boundary(idx)
    }

    /// Appends `string` if the result fits; otherwise fails with `TooLong` and
    /// leaves the value as it was.
    pub fn try_push_str(&mut self, string: &str) -> (r: Result<(), TryFromStrError>)
        ensures
            r is Ok <==> old(self).bytes().len() + string.spec_bytes().len() <= CAPACITY,
            r is Ok ==> final(self)@ == old(self)@ + string@,
            r is Err ==> r == Err::<(), _>(TryFromStrError::TooLong) && *final(self) == *old(self),
    {
        proof {
            use_type_invariant(&*self);
            self.lemma_raw();
            lemma_encode_concat(self@, string@);
        }
        let len = self.len as usize;
        let bytes = string.as_bytes();
        if bytes.len() > CAPACITY - len {
            return Err(TryFromStrError::TooLong);
        }
        proof {
            is_char_boundary_start_end_of_seq(self.bytes());
        }
        self.splice(len, len, bytes);
        assert(final(self).bytes() == old(self).bytes() + string.spec_bytes()) by {
            assert(old(self).bytes().subrange(0, len as int) =~= old(self).bytes());
            assert(old(self).bytes().subrange(len as int, len as int) =~= Seq::<u8>::empty());
            assert(old(self).bytes() + string.spec_bytes() + Seq::<u8>::empty()
                =~= old(self).bytes() + string.spec_bytes());
        }
        proof {
            encode_utf8_decode_utf8(self@);
            encode_utf8_decode_utf8(old(self)@ + string@);
        }
        Ok(())
    }

    /// Appends `ch` if the result fits; otherwise fails with `TooLong` and
    /// leaves the value as it was.
    pub fn try_push(&mut self, ch: char) -> (r: Result<(), TryFromStrError>)
        ensures
            r is Ok <==> old(self).bytes().len() + encode_scalar(ch as u32).len() <= CAPACITY,
            r is Ok ==> final(self)@ == old(self)@.push(ch),
            r is Err ==> r == Err::<(), _>(TryFromStrError::TooLong) && *final(self) == *old(self),
    {
        proof {
            use_type_invariant(&*self);
            self.lemma_raw();
            lemma_encode_concat(self@, seq![ch]);
            lemma_encode_single(ch);
            assert(self@ + seq![ch] =~= self@.push(ch));
        }
        let len = self.len as usize;
        let (buf, n) = encode_char(ch);
        if n > CAPACITY - len {
            return Err(TryFromStrError::TooLong);
        }
        let src = slice_subrange(buf.as_slice(), 0, n);
        proof {
            is_char_boundary_start_end_of_seq(self.bytes());
            assert(src@ == encode_utf8(seq![ch]));
        }
        self.splice(len, len, src);
        assert(final(self).bytes() == encode_utf8(old(self)@.push(ch))) by {
            assert(old(self).bytes().subrange(0, len as int) =~= old(self).bytes());
            assert(old(self).bytes().subrange(len as int, len as int) =~= Seq::<u8>::empty());
            assert(old(self).bytes() + src@ + Seq::<u8>::empty() =~= old(self).bytes() + src@);
        }
        proof {
            encode_utf8_decode_utf8(self@);
            encode_utf8_decode_utf8(old(self)@.push(ch));
        }
        Ok(())
    }

    /// Appends `string`, which must fit into the remaining capacity.
    pub fn push_str_expect_capacity(&mut self, string: &str)
        requires
            old(self).bytes().len() + string.spec_bytes().len() <= CAPACITY,
        ensures
            final(self)@ == old(self)@ + string@,
    {
        let _ = self.try_push_str(string);
    }

    /// Appends `ch`, which must fit into the remaining capacity.
    pub fn push_expect_capacity(&mut self, ch: char)
        requires
            old(self).bytes().len() + encode_scalar(ch as u32).len() <= CAPACITY,
        ensures
            final(self)@ == old(self)@.push(ch),
    {
        let _ = self.try_push(ch);
    }

    /// Appends `string`, which must fit into the remaining capacity; the
    /// fallible form is `try_push_str`.
    pub fn push_str(&mut self, string: &str)
        requires
            old(self).bytes().len() + string.spec_bytes().len() <= CAPACITY,
        ensures
            final(self)@ == old(self)@ + string@,
    {
        self.push_str_expect_capacity(string)
    }

    /// Appends `ch`, which must fit into the remaining capacity; the fallible
    /// form is `try_push`.
    pub fn push(&mut self, ch: char)
        requires
            old(self).bytes().len() + encode_scalar(ch as u32).len() <= CAPACITY,
        ensures
            final(self)@ == old(self)@.push(ch),
    {
        self.push_expect_capacity(ch)
    }

    /// Inserts `string` at byte index `idx`. Fails, leaving the value as it
    /// was, when `idx` is past the end, inside a character, or when the result
    /// would not fit.
    pub fn try_insert_str(&mut self, idx: usize, string: &str) -> (r: Result<(), InsertError>)
        ensures
            ({
                let b = old(self).bytes();
                &&& idx > b.len() ==> r == Err::<(), _>(
                    InsertError::OutOfBounds { idx, len: b.len() as usize },
                )
                &&& idx <= b.len() && !is_char_boundary(b, idx as int) ==> r == Err::<(), _>(
                    InsertError::NotCharBoundary { idx },
                )
                &&& idx <= b.len() && is_char_boundary(b, idx as int) && b.len()
                    + string.spec_bytes().len() > CAPACITY ==> r == Err::<(), _>(
                    InsertError::TooLong,
                )
                &&& r is Ok <==> idx <= b.len() && is_char_boundary(b, idx as int) && b.len()
                    + string.spec_bytes().len() <= CAPACITY
                &&& r is Ok ==> final(self).bytes() == b.subrange(0, idx as int)
                    + string.spec_bytes() + b.subrange(idx as int, b.len() as int)
                &&& r is Err ==> *final(self) == *old(self)
            }),
    {
        proof {
            use_type_invariant(&*self);
            self.lemma_raw();
        }
        let len = self.len as usize;
        if idx > len {
            return Err(InsertError::OutOfBounds { idx, len });
        }
        if !self.is_boundary(idx) {
            return Err(InsertError::NotCharBoundary { idx });
        }
        let bytes = string.as_bytes();
        if bytes.len() > CAPACITY - len {
            return Err(InsertError::TooLong);
        }
        self.splice(idx, idx, bytes);
        Ok(())
    }

    /// Inserts `ch` at byte index `idx`, failing as `try_insert_str` does.
    pub fn try_insert(&mut self, idx: usize, ch: char) -> (r: Result<(), InsertError>)
        ensures
            ({
                let b = old(self).bytes();
                let e = encode_scalar(ch as u32);
                &&& idx > b.len() ==> r == Err::<(), _>(
                    InsertError::OutOfBounds { idx, len: b.len() as usize },
                )
                &&& idx <= b.len() && !is_char_boundary(b, idx as int) ==> r == Err::<(), _>(
                    InsertError::NotCharBoundary { idx },
                )
                &&& idx <= b.len() && is_char_boundary(b, idx as int) && b.len() + e.len()
                    > CAPACITY ==> r == Err::<(), _>(InsertError::TooLong)
                &&& r is Ok <==> idx <= b.len() && is_char_boundary(b, idx as int) && b.len()
                    + e.len() <= CAPACITY
                &&& r is Ok ==> final(self).bytes() == b.subrange(0, idx as int) + e
                    + b.subrange(idx as int, b.len() as int)
                &&& r is Err ==> *final(self) == *old(self)
            }),
    {
        proof {
            use_type_invariant(&*self);
            self.lemma_raw();
            lemma_encode_single(ch);
        }
        let len = self.len as usize;
        if idx > len {
            return Err(InsertError::OutOfBounds { idx, len });
        }
        if !self.is_boundary(idx) {
            return Err(InsertError::NotCharBoundary { idx });
        }
        let (buf, n) = encode_char(ch);
        if n > CAPACITY - len {
            return Err(InsertError::TooLong);
        }
        let src = slice_subrange(buf.as_slice(), 0, n);
        proof {
            assert(src@ == encode_utf8(seq![ch]));
        }
        self.splice(idx, idx, src);
        Ok(())
    }

    /// Inserts `string` at byte index `idx`; the index must be a character
    /// boundary and the result must fit.
    pub fn insert_str_expect_capacity(&mut self, idx: usize, string: &str)
        requires
            idx <= old(self).bytes().len(),
            is_char_boundary(old(self).bytes(), idx as int),
            old(self).bytes().len() + string.spec_bytes().len() <= CAPACITY,
        ensures
            final(self).bytes() == old(self).bytes().subrange(0, idx as int) + string.spec_bytes()
                + old(self).bytes().subrange(idx as int, old(self).bytes().len() as int),
    {
        let _ = self.try_insert_str(idx, string);
    }

    /// Inserts `string` at byte index `idx`, as `insert_str_expect_capacity` does.
    pub fn insert_str(&mut self, idx: usize, string: &str)
        requires
            idx <= old(self).bytes().len(),
            is_char_boundary(old(self).bytes(), idx as int),
            old(self).bytes().len() + string.spec_bytes().len() <= CAPACITY,
        ensures
            final(self).bytes() == old(self).bytes().subrange(0, idx as int) + string.spec_bytes()
                + old(self).bytes().subrange(idx as int, old(self).bytes().len() as int),
    {
        self.insert_str_expect_capacity(idx, string)
    }

    /// Inserts `ch` at byte index `idx`; the index must be a character
    /// boundary and the result must fit.
    pub fn insert_expect_capacity(&mut self, idx: usize, ch: char)
        requires
            idx <= old(self).bytes().len(),
            is_char_boundary(old(self).bytes(), idx as int),
            old(self).bytes().len() + encode_scalar(ch as u32).len() <= CAPACITY,
        ensures
            final(self).bytes() == old(self).bytes().subrange(0, idx as int) + encode_scalar(
                ch as u32,
            ) + old(self).bytes().subrange(idx as int, old(self).bytes().len() as int),
    {
        let _ = self.try_insert(idx, ch);
    }

    /// Inserts `ch` at byte index `idx`, as `insert_expect_capacity` does.
    pub fn insert(&mut self, idx: usize, ch: char)
        requires
            idx <= old(self).bytes().len(),
            is_char_boundary(old(self).bytes(), idx as int),
            old(self).bytes().len() + encode_scalar(ch as u32).len() <= CAPACITY,
        ensures
            final(self).bytes() == old(self).bytes().subrange(0, idx as int) + encode_scalar(
                ch as u32,
            ) + old(self).bytes().subrange(idx as int, old(self).bytes().len() as int),
    {
        self.insert_expect_capacity(idx, ch)
    }

    /// Inserts at byte index `idx` the longest whole-character prefix of
    /// `string` that fits, and returns the rest of `string`. Fails, leaving the
    /// value as it was, when `idx` is past the end or inside a character.
    pub fn try_insert_str_truncated<'s>(&mut self, idx: usize, string: &'s str) -> (r: Result<
        &'s str,
        InsertError,
    >)
        ensures
            ({
                let b = old(self).bytes();
                let sb = string.spec_bytes();
                let k = floor_boundary(sb, CAPACITY - b.len());
                &&& idx > b.len() ==> r == Err::<&str, _>(
                    InsertError::OutOfBounds { idx, len: b.len() as usize },
                )
                &&& idx <= b.len() && !is_char_boundary(b, idx as int) ==> r == Err::<&str, _>(
                    InsertError::NotCharBoundary { idx },
                )
                &&& r is Ok <==> idx <= b.len() && is_char_boundary(b, idx as int)
                &&& r matches Ok(rest) ==> final(self).bytes() == b.subrange(0, idx as int)
                    + sb.subrange(0, k) + b.subrange(idx as int, b.len() as int)
                    && rest.spec_bytes() == sb.subrange(k, sb.len() as int)
                &&& r is Err ==> *final(self) == *old(self)
            }),
    {
        proof {
            use_type_invariant(&*self);
            self.lemma_raw();
        }
        let len = self.len as usize;
        if idx > len {
            return Err(InsertError::OutOfBounds { idx, len });
        }
        if !self.is_boundary(idx) {
            return Err(InsertError::NotCharBoundary { idx });
        }
        let available = CAPACITY - len;
        let k = floor_char_boundary(string, available);
        proof {
            lemma_floor_boundary(string.spec_bytes(), available as int);
        }
        let (prefix, rest) = string.split_at(k);
        proof {
            lemma_split(string.spec_bytes(), k as int);
        }
        self.splice(idx, idx, prefix.as_bytes());
        Ok(rest)
    }

    /// Inserts at byte index `idx` the longest whole-character prefix of
    /// `string` that fits, and returns the rest; `idx` must be a character boundary.
    pub fn insert_str_truncated<'s>(&mut self, idx: usize, string: &'s str) -> (r: &'s str)
        requires
            idx <= old(self).bytes().len(),
            is_char_boundary(old(self).bytes(), idx as int),
        ensures
            ({
                let b = old(self).bytes();
                let sb = string.spec_bytes();
                let k = floor_boundary(sb, CAPACITY - b.len());
                &&& final(self).bytes() == b.subrange(0, idx as int) + sb.subrange(0, k)
                    + b.subrange(idx as int, b.len() as int)
                &&& r.spec_bytes() == sb.subrange(k, sb.len() as int)
            }),
    {
        match self.try_insert_str_truncated(idx, string) {
            Ok(rest) => rest,
            Err(_) => {
                assert(false);
                ""
            },
        }
    }

    /// Appends the longest whole-character prefix of `string` that fits and
    /// returns the rest of `string`.
    pub fn push_str_truncated<'s>(&mut self, string: &'s str) -> (r: &'s str)
        ensures
            ({
                let b = old(self).bytes();
                let sb = string.spec_bytes();
                let k = floor_boundary(sb, CAPACITY - b.len());
                &&& final(self).bytes() == b + sb.subrange(0, k)
                &&& r.spec_bytes() == sb.subrange(k, sb.len() as int)
            }),
    {
        proof {
            use_type_invariant(&*self);
            self.lemma_raw();
            is_char_boundary_start_end_of_seq(self.bytes());
        }
        let len = self.len as usize;
        let r = self.insert_str_truncated(len, string);
        proof {
            let b = old(self).bytes();
            assert(b.subrange(0, len as int) =~= b);
            assert(b.subrange(len as int, len as int) =~= Seq::<u8>::empty());
            let k = floor_boundary(string.spec_bytes(), CAPACITY - b.len());
            assert(b + string.spec_bytes().subrange(0, k) + Seq::<u8>::empty() =~= b
                + string.spec_bytes().subrange(0, k));
        }
        r
    }

    /// Shortens the content to `new_len` bytes, which must be a character
    /// boundary no greater than the length; truncating to the length itself
    /// changes nothing.
    pub fn truncate(&mut self, new_len: usize)
        requires
            new_len <= old(self).bytes().len(),
            is_char_boundary(old(self).bytes(), new_len as int),
        ensures
            final(self).bytes() == old(self).bytes().subrange(0, new_len as int),
            new_len == old(self).bytes().len() ==> *final(self) == *old(self),
    {
        proof {
            use_type_invariant(&*self);
            self.lemma_raw();
        }
        if new_len < self.len as usize {
            proof {
                lemma_split(self.raw(), new_len as int);
                assert(self.data@.subrange(0, new_len as int) =~= self.raw().subrange(
                    0,
                    new_len as int,
                ));
            }
            self.len = new_len as u8;
            proof {
                use_type_invariant(&*self);
                self.lemma_raw();
            }
        }
    }

    /// Removes the last character and returns it, or `None` when empty.
    pub fn pop(&mut self) -> (r: Option<char>)
        ensures
            old(self)@.len() == 0 ==> r is None && *final(self) == *old(self),
            old(self)@.len() > 0 ==> r == Some(old(self)@.last()) && final(self)@ == old(
                self,
            )@.drop_last(),
    {
        proof {
            use_type_invariant(&*self);
            self.lemma_raw();
        }
        if self.is_empty() {
            return None;
        }
        let len = self.len as usize;
        let ghost b = self.bytes();
        let s = self.as_str();
        assert(s.spec_bytes() == b);
        let mut i = len - 1;
        proof {
            is_char_boundary_start_end_of_seq(b);
            if len == 0 {
                assert(b =~= Seq::<u8>::empty());
                assert(decode_utf8(b) =~= Seq::<char>::empty());
            }
        }
        while i > 0 && !s.is_char_boundary(i)
            invariant
                i < len,
                len == b.len(),
                s.spec_bytes() == b,
                forall|j: int| i < j < len ==> !is_char_boundary(b, j),
            decreases i,
        {
            i = i - 1;
        }
        proof {
            lemma_char_at(b, i as int);
            let c = decode_utf8(b.subrange(i as int, len as int))[0];
            let l = encode_scalar(c as u32).len() as int;
            if i + l < len {
                assert(!is_char_boundary(b, i + l));
            }
            lemma_split(b, i as int);
            assert(self@ == decode_utf8(b));
            assert(self@ =~= decode_utf8(b.subrange(0, i as int)) + seq![c]);
            assert(self@.drop_last() =~= decode_utf8(b.subrange(0, i as int)));
        }
        let (_, tail) = s.split_at(i);
        assert(tail@ == decode_utf8(b.subrange(i as int, len as int)));
        let mut it = tail.chars();
        let c = it.next();
        self.truncate(i);
        c
    }

    /// Removes the character that starts at byte index `idx` and returns it;
    /// `idx` must be a character boundary before the end.
    pub fn remove(&mut self, idx: usize) -> (r: char)
        requires
            idx < old(self).bytes().len(),
            is_char_boundary(old(self).bytes(), idx as int),
        ensures
            ({
                let b = old(self).bytes();
                &&& r == decode_utf8(b.subrange(idx as int, b.len() as int))[0]
                &&& final(self).bytes() == b.subrange(0, idx as int) + b.subrange(
                    idx + encode_scalar(r as u32).len(),
                    b.len() as int,
                )
            }),
    {
        proof {
            use_type_invariant(&*self);
            self.lemma_raw();
        }
        let len = self.len as usize;
        let ghost b = self.bytes();
        let s = self.as_str();
        proof {
            lemma_char_at(b, idx as int);
        }
        let (_, tail) = s.split_at(idx);
        assert(tail@ == decode_utf8(b.subrange(idx as int, len as int)));
        let mut it = tail.chars();
        let c = match it.next() {
            Some(c) => c,
            None => {
                assert(false);
                ' '
            },
        };
        let (buf, n) = encode_char(c);
        let none = slice_subrange(buf.as_slice(), 0, 0);
        self.splice(idx, idx + n, none);
        assert(b.subrange(0, idx as int) + Seq::<u8>::empty() =~= b.subrange(0, idx as int));
        c
    }

    /// Removes the character that starts at byte index `idx` and returns it.
    /// Fails, leaving the value as it was, when `idx` is not before the end or
    /// falls inside a character.
    pub fn try_remove(&mut self, idx: usize) -> (r: Result<char, RemoveError>)
        ensures
            ({
                let b = old(self).bytes();
                &&& idx >= b.len() ==> r == Err::<char, _>(
                    RemoveError::OutOfBounds { idx, len: b.len() as usize },
                )
                &&& idx < b.len() && !is_char_boundary(b, idx as int) ==> r == Err::<char, _>(
                    RemoveError::NotCharBoundary { idx },
                )
                &&& r is Ok <==> idx < b.len() && is_char_boundary(b, idx as int)
                &&& r matches Ok(c) ==> c == decode_utf8(b.subrange(idx as int, b.len() as int))[0]
                    && final(self).bytes() == b.subrange(0, idx as int) + b.subrange(
                    idx + encode_scalar(c as u32).len(),
                    b.len() as int,
                )
                &&& r is Err ==> *final(self) == *old(self)
            }),
    {
        let len = self.len();
        if idx >= len {
            return Err(RemoveError::OutOfBounds { idx, len });
        }
        if !self.is_boundary(idx) {
            return Err(RemoveError::NotCharBoundary { idx });
        }
        Ok(self.remove(idx))
    }

    /// The longest whole-character prefix of `string` that fits into `CAPACITY` bytes.
    pub fn from_str_truncated(string: &str) -> (r: Self)
        requires
            CAPACITY <= 255,
        ensures
            r.bytes() == string.spec_bytes().subrange(
                0,
                floor_boundary(string.spec_bytes(), CAPACITY as int),
            ),
    {
        let mut ps = Self::new();
        let _ = ps.push_str_truncated(string);
        assert(Seq::<u8>::empty() + string.spec_bytes().subrange(
            0,
            floor_boundary(string.spec_bytes(), CAPACITY as int),
        ) =~= string.spec_bytes().subrange(
            0,
            floor_boundary(string.spec_bytes(), CAPACITY as int),
        ));
        ps
    }

    /// A string holding `string`, or `None` when it does not fit (or when
    /// `CAPACITY` exceeds 255, so that no value of this type can exist).
    pub fn try_from_str_const(string: &str) -> (r: Option<Self>)
        ensures
            r is Some <==> CAPACITY <= 255 && string.spec_bytes().len() <= CAPACITY,
            r matches Some(p) ==> p@ == string@,
    {
        if CAPACITY > 255 || string.as_bytes().len() > CAPACITY {
            return None;
        }
        let mut ps = Self::new();
        match ps.try_push_str(string) {
            Ok(()) => {
                assert(Seq::<char>::empty() + string@ =~= string@);
                Some(ps)
            },
            Err(_) => None,
        }
    }

    /// The length byte and the whole buffer; only the first `len` bytes of the
    /// buffer are content.
    pub fn into_inner(self) -> (r: (u8, [u8; CAPACITY]))
        ensures
            r.0 as nat == self.bytes().len(),
            r.1@.subrange(0, r.0 as int) == self.bytes(),
    {
        proof {
            use_type_invariant(&self);
            self.lemma_raw();
        }
        (self.len, self.data)
    }

    /// The content as a mutable string slice. Relies on `core::str::from_utf8_mut`
    /// over the occupied bytes, which are valid UTF-8: the slice views the
    /// content, and what is written through it (same length, still UTF-8) is
    /// the content afterwards.
    #[verifier::external_body]
    pub fn as_mut_str(&mut self) -> (r: &mut str)
        ensures
            r@ == old(self)@,
            final(self)@ == final(r)@,
    {
        let len = self.len as usize;
        core::str::from_utf8_mut(&mut self.data[..len]).unwrap()
    }

    /// The content as a string slice, through a mutable borrow that is not used
    /// to change anything.
    pub fn as_str_mut(&mut self) -> (r: &str)
        ensures
            r@ == old(self)@,
            *final(self) == *old(self),
    {
        self.as_str()
    }

    /// Empties the string.
    pub fn clear(&mut self)
        ensures
            final(self)@ == Seq::<char>::empty(),
    {
        proof {
            use_type_invariant(&*self);
        }
        self.len = 0;
        assert(self.raw() =~= Seq::<u8>::empty());
    }
}

impl<const CAPACITY: usize> PartialEq for PascalString<CAPACITY> {
    fn eq(&self, other: &Self) -> (r: bool) {
        let r = equal_bytes(self.as_str().as_bytes(), other.as_str().as_bytes());
        proof {
            encode_utf8_decode_utf8(self@);
            encode_utf8_decode_utf8(other@);
        }
        r
    }
}

impl<const CAPACITY: usize> vstd::std_specs::cmp::PartialEqSpecImpl for PascalString<CAPACITY> {
    open spec fn obeys_eq_spec() -> bool {
        true
    }

    open spec fn eq_spec(&self, other: &Self) -> bool {
        self@ == other@
    }
}

impl<const CAPACITY: usize> Eq for PascalString<CAPACITY> {

}

impl<const CAPACITY: usize> PartialEq<String> for PascalString<CAPACITY> {
    fn eq(&self, other: &String) -> (r: bool) {
        let r = equal_bytes(self.as_str().as_bytes(), other.as_str().as_bytes());
        proof {
            encode_utf8_decode_utf8(self@);
            encode_utf8_decode_utf8(other@);
        }
        r
    }
}

impl<const CAPACITY: usize> vstd::std_specs::cmp::PartialEqSpecImpl<String> for PascalString<CAPACITY> {
    open spec fn obeys_eq_spec() -> bool {
        true
    }

    open spec fn eq_spec(&self, other: &String) -> bool {
        self@ == other@
    }
}

impl<'a, const CAPACITY: usize> PartialEq<&'a str> for PascalString<CAPACITY> {
    fn eq(&self, other: &&'a str) -> (r: bool) {
        let r = equal_bytes(self.as_str().as_bytes(), other.as_bytes());
        proof {
            encode_utf8_decode_utf8(self@);
            encode_utf8_decode_utf8(other@);
        }
        r
    }
}

impl<'a, const CAPACITY: usize> vstd::std_specs::cmp::PartialEqSpecImpl<&'a str> for PascalString<CAPACITY> {
    open spec fn obeys_eq_spec() -> bool {
        true
    }

    open spec fn eq_spec(&self, other: &&'a str) -> bool {
        self@ == other@
    }
}

impl<const CAPACITY: usize> PartialOrd for PascalString<CAPACITY> {
    fn partial_cmp(&self, other: &Self) -> (r: Option<core::cmp::Ordering>) {
        Some(compare_bytes(self.as_str().as_bytes(), other.as_str().as_bytes()))
    }
}

impl<const CAPACITY: usize> vstd::std_specs::cmp::PartialOrdSpecImpl for PascalString<CAPACITY> {
    open spec fn obeys_partial_cmp_spec() -> bool {
        true
    }

    open spec fn partial_cmp_spec(&self, other: &Self) -> Option<core::cmp::Ordering> {
        Some(lex_cmp(self.bytes(), other.bytes()))
    }
}

impl<const CAPACITY: usize> core::hash::Hash for PascalString<CAPACITY> {
    /// Relies on `str`'s `Hash`: the content hashes as the equal `str` does.
    #[verifier::external_body]
    fn hash<H: core::hash::Hasher>(&self, state: &mut H) {
        self.as_str().hash(state)
    }
}

impl<'a, const CAPACITY: usize> TryFrom<&'a str> for PascalString<CAPACITY> {
    type Error = TryFromStrError;

    /// Succeeds exactly when `value` fits (and `CAPACITY` is at most 255).
    fn try_from(value: &'a str) -> (r: Result<Self, TryFromStrError>)
        ensures
            r is Ok <==> CAPACITY <= 255 && value.spec_bytes().len() <= CAPACITY,
            r matches Ok(p) ==> p@ == value@,
            r is Err ==> r == Err::<Self, _>(TryFromStrError::TooLong),
    {
        match Self::try_from_str_const(value) {
            Some(p) => Ok(p),
            None => Err(TryFromStrError::TooLong),
        }
    }
}

impl<'a, const CAPACITY: usize> vstd::std_specs::convert::TryFromSpecImpl<&'a str> for PascalString<CAPACITY> {
    // The contract is stated on `try_from` itself.
    open spec fn obeys_try_from_spec() -> bool {
        false
    }

    open spec fn try_from_spec(v: &'a str) -> Result<Self, TryFromStrError> {
        arbitrary()
    }
}

impl<'a, const CAPACITY: usize> TryFrom<&'a [u8]> for PascalString<CAPACITY> {
    type Error = TryFromBytesError;

    /// Fails with `Utf8Error` when `bytes` are not UTF-8, and with `TooLong`
    /// when they do not fit.
    fn try_from(bytes: &'a [u8]) -> (r: Result<Self, TryFromBytesError>)
        ensures
            !valid_utf8(bytes@) ==> r matches Err(TryFromBytesError::Utf8Error(_)),
            valid_utf8(bytes@) && !(CAPACITY <= 255 && bytes@.len() <= CAPACITY) ==> r
                == Err::<Self, _>(TryFromBytesError::TooLong),
            r is Ok <==> valid_utf8(bytes@) && CAPACITY <= 255 && bytes@.len() <= CAPACITY,
            r matches Ok(p) ==> p.bytes() == bytes@,
    {
        match str_from_utf8(bytes) {
            Err(e) => Err(TryFromBytesError::Utf8Error(e)),
            Ok(s) => match Self::try_from_str_const(s) {
                Some(p) => Ok(p),
                None => Err(TryFromBytesError::TooLong),
            },
        }
    }
}

impl<'a, const CAPACITY: usize> vstd::std_specs::convert::TryFromSpecImpl<&'a [u8]> for PascalString<CAPACITY> {
    // The contract is stated on `try_from` itself.
    open spec fn obeys_try_from_spec() -> bool {
        false
    }

    open spec fn try_from_spec(v: &'a [u8]) -> Result<Self, TryFromBytesError> {
        arbitrary()
    }
}

impl<'a, const CAPACITY: usize> TryFrom<&'a mut str> for PascalString<CAPACITY> {
    type Error = TryFromStrError;

    /// Succeeds exactly when `value` fits (and `CAPACITY` is at most 255).
    fn try_from(value: &'a mut str) -> (r: Result<Self, TryFromStrError>)
        ensures
            r is Ok <==> CAPACITY <= 255 && old(value).spec_bytes().len() <= CAPACITY,
            r matches Ok(p) ==> p@ == old(value)@,
            r is Err ==> r == Err::<Self, _>(TryFromStrError::TooLong),
            final(value)@ == old(value)@,
    {
        match Self::try_from_str_const(value) {
            Some(p) => Ok(p),
            None => Err(TryFromStrError::TooLong),
        }
    }
}

impl<'a, const CAPACITY: usize> vstd::std_specs::convert::TryFromSpecImpl<&'a mut str> for PascalString<CAPACITY> {
    // The contract is stated on `try_from` itself.
    open spec fn obeys_try_from_spec() -> bool {
        false
    }

    open spec fn try_from_spec(v: &'a mut str) -> Result<Self, TryFromStrError> {
        arbitrary()
    }
}

impl<const CAPACITY: usize> TryFrom<char> for PascalString<CAPACITY> {
    type Error = TryFromStrError;

    /// Succeeds exactly when the encoding of `value` fits.
    fn try_from(value: char) -> (r: Result<Self, TryFromStrError>)
        ensures
            r is Ok <==> CAPACITY <= 255 && encode_scalar(value as u32).len() <= CAPACITY,
            r matches Ok(p) ==> p@ == seq![value],
            r is Err ==> r == Err::<Self, _>(TryFromStrError::TooLong),
    {
        if CAPACITY > 255 {
            return Err(TryFromStrError::TooLong);
        }
        let mut p = Self::new();
        proof {
            lemma_encode_single(value);
            assert(Seq::<char>::empty().push(value) =~= seq![value]);
        }
        match p.try_push(value) {
            Ok(()) => Ok(p),
            Err(e) => Err(e),
        }
    }
}

impl<const CAPACITY: usize> vstd::std_specs::convert::TryFromSpecImpl<char> for PascalString<CAPACITY> {
    // The contract is stated on `try_from` itself.
    open spec fn obeys_try_from_spec() -> bool {
        false
    }

    open spec fn try_from_spec(v: char) -> Result<Self, TryFromStrError> {
        arbitrary()
    }
}

impl<const CAPACITY: usize> core::str::FromStr for PascalString<CAPACITY> {
    type Err = TryFromStrError;

    fn from_str(s: &str) -> (r: Result<Self, TryFromStrError>)
        ensures
            r is Ok <==> CAPACITY <= 255 && s.spec_bytes().len() <= CAPACITY,
            r matches Ok(p) ==> p@ == s@,
    {
        match Self::try_from_str_const(s) {
            Some(p) => Ok(p),
            None => Err(TryFromStrError::TooLong),
        }
    }
}

impl<const CAPACITY: usize> core::convert::AsRef<str> for PascalString<CAPACITY> {
    /// The content as a string slice.
    fn as_ref(&self) -> &str {
        self.as_str()
    }
}

impl<const CAPACITY: usize> core::convert::AsRef<[u8]> for PascalString<CAPACITY> {
    /// The UTF-8 bytes of the content.
    fn as_ref(&self) -> &[u8] {
        self.as_str().as_bytes()
    }
}

impl<const CAPACITY: usize> core::borrow::Borrow<str> for PascalString<CAPACITY> {
    /// The content as a string slice; it compares and hashes as the value does.
    fn borrow(&self) -> &str {
        self.as_str()
    }
}

impl<const CAPACITY: usize> PartialEq<PascalString<CAPACITY>> for String {
    fn eq(&self, other: &PascalString<CAPACITY>) -> (r: bool) {
        let r = equal_bytes(self.as_str().as_bytes(), other.as_str().as_bytes());
        proof {
            encode_utf8_decode_utf8(self@);
            encode_utf8_decode_utf8(other@);
        }
        r
    }
}

impl<const CAPACITY: usize> vstd::std_specs::cmp::PartialEqSpecImpl<PascalString<CAPACITY>> for String {
    open spec fn obeys_eq_spec() -> bool {
        true
    }

    open spec fn eq_spec(&self, other: &PascalString<CAPACITY>) -> bool {
        self@ == other@
    }
}

impl<'a, const CAPACITY: usize> PartialEq<PascalString<CAPACITY>> for &'a str {
    fn eq(&self, other: &PascalString<CAPACITY>) -> (r: bool) {
        let r = equal_bytes(self.as_bytes(), other.as_str().as_bytes());
        proof {
            encode_utf8_decode_utf8(self@);
            encode_utf8_decode_utf8(other@);
        }
        r
    }
}

impl<'a, const CAPACITY: usize> vstd::std_specs::cmp::PartialEqSpecImpl<PascalString<CAPACITY>> for &'a str {
    open spec fn obeys_eq_spec() -> bool {
        true
    }

    open spec fn eq_spec(&self, other: &PascalString<CAPACITY>) -> bool {
        self@ == other@
    }
}

impl<const CAPACITY: usize> core::ops::Deref for PascalString<CAPACITY> {
    type Target = str;

    /// The content as a string slice.
    fn deref(&self) -> (r: &str)
        ensures
            r@ == self@,
    {
        self.as_str()
    }
}

impl<const CAPACITY: usize> core::fmt::Write for PascalString<CAPACITY> {
    /// Appends `s` when it fits; otherwise reports an error and changes nothing.
    fn write_str(&mut self, s: &str) -> (r: core::fmt::Result)
        ensures
            r is Ok <==> old(self).bytes().len() + s.spec_bytes().len() <= CAPACITY,
            r is Ok ==> final(self)@ == old(self)@ + s@,
            r is Err ==> *final(self) == *old(self),
    {
        match self.try_push_str(s) {
            Ok(()) => Ok(()),
            Err(_) => Err(core::fmt::Error),
        }
    }
}

} // verus!
