use vstd::prelude::*;
use vstd::slice::slice_subrange;
use vstd::string::StringSliceAdditionalSpecFns;
use vstd::utf8::*;

use crate::std_calls::str_from_utf8;
use crate::text::lemma_boundary_concat;

verus! {

broadcast use vstd::utf8::group_utf8_lib;

/// A stack of strings stored back to back in one byte buffer, with the end
/// offset of each.
#[derive(Debug, PartialEq, Eq)]
pub struct StrStack {
    data: Vec<u8>,
    ends: Vec<usize>,
}

/// The number of bytes of `strs`, concatenated.
pub open spec fn total_len(strs: Seq<Seq<char>>) -> nat
    decreases strs.len(),
{
    if strs.len() == 0 {
        0
    } else {
        total_len(strs.drop_last()) + encode_utf8(strs.last()).len()
    }
}

/// The start offset of entry `i` given the end offsets.
pub open spec fn entry_start(ends: Seq<usize>, i: int) -> int {
    if i == 0 {
        0
    } else {
        ends[i - 1] as int
    }
}

impl View for StrStack {
    type V = Seq<Seq<char>>;

    /// The strings, bottom first.
    closed spec fn view(&self) -> Seq<Seq<char>> {
        Seq::new(self.ends@.len(), |i: int| decode_utf8(self.entry_bytes(i)))
    }
}

impl StrStack {
    #[verifier::type_invariant]
    spec fn inv(self) -> bool {
        &&& forall|i: int, j: int|
            0 <= i <= j < self.ends@.len() ==> self.ends@[i] <= self.ends@[j]
        &&& forall|i: int| 0 <= i < self.ends@.len() ==> self.ends@[i] <= self.data@.len()
        &&& self.ends@.len() == 0 ==> self.data@.len() == 0
        &&& self.ends@.len() > 0 ==> self.ends@.last() == self.data@.len()
        &&& forall|i: int|
            0 <= i < self.ends@.len() ==> #[trigger] valid_utf8(self.entry_bytes(i))
        &&& forall|i: int|
            0 <= i < self.ends@.len() ==> valid_utf8(
                #[trigger] self.data@.subrange(0, self.ends@[i] as int),
            )
    }

    /// The bytes of entry `i`.
    closed spec fn entry_bytes(&self, i: int) -> Seq<u8> {
        self.data@.subrange(entry_start(self.ends@, i), self.ends@[i] as int)
    }

    /// An empty stack.
    pub fn new() -> (r: Self)
        ensures
            r@ == Seq::<Seq<char>>::empty(),
    {
        let r = StrStack { data: Vec::new(), ends: Vec::new() };
        assert(r@ =~= Seq::<Seq<char>>::empty());
        r
    }

    /// The number of strings.
    pub fn len(&self) -> (r: usize)
        ensures
            r == self@.len(),
    {
        self.ends.len()
    }

    /// Whether there are no strings.
    pub fn is_empty(&self) -> (r: bool)
        ensures
            r == (self@.len() == 0),
    {
        self.ends.len() == 0
    }

    /// All the strings, concatenated bottom first.
    pub fn as_str(&self) -> (r: &str)
        ensures
            r@ == self@.fold_left(Seq::<char>::empty(), |acc: Seq<char>, s: Seq<char>| acc + s),
    {
        proof {
            use_type_invariant(self);
        }
        match str_from_utf8(self.data.as_slice()) {
            Ok(s) => {
                proof {
                    self.lemma_concat(self.ends@.len() as int);
                    if self.ends@.len() > 0 {
                        assert(self.data@.subrange(0, self.ends@.last() as int) =~= self.data@);
                    } else {
                        assert(self.data@ =~= Seq::<u8>::empty());
                    }
                }
                s
            },
            Err(_) => {
                proof {
                    if self.ends@.len() > 0 {
                        assert(valid_utf8(self.data@.subrange(0, self.ends@[self.ends@.len() - 1] as int)));
                        assert(self.data@.subrange(0, self.ends@.last() as int) =~= self.data@);
                    } else {
                        assert(self.data@ =~= Seq::<u8>::empty());
                    }
                }
                assert(false);
                ""
            },
        }
    }

    /// The bytes before the end of entry `k - 1` decode to the first `k`
    /// strings, concatenated.
    proof fn lemma_concat(&self, k: int)
        requires
            self.inv(),
            0 <= k <= self.ends@.len(),
        ensures
            decode_utf8(self.data@.subrange(0, entry_start(self.ends@, k))) == self@.subrange(
                0,
                k,
            ).fold_left(Seq::<char>::empty(), |acc: Seq<char>, s: Seq<char>| acc + s),
        decreases k,
    {
        let f = |acc: Seq<char>, s: Seq<char>| acc + s;
        if k == 0 {
            assert(self.data@.subrange(0, 0) =~= Seq::<u8>::empty());
            assert(self@.subrange(0, 0) =~= Seq::<Seq<char>>::empty());
        } else {
            self.lemma_concat(k - 1);
            let pre = self.data@.subrange(0, entry_start(self.ends@, k - 1));
            let e = self.entry_bytes(k - 1);
            if k - 1 > 0 {
                assert(valid_utf8(self.data@.subrange(0, self.ends@[k - 2] as int)));
            } else {
                assert(pre =~= Seq::<u8>::empty());
            }
            assert(valid_utf8(e));
            lemma_boundary_concat(pre, e);
            assert(pre + e =~= self.data@.subrange(0, entry_start(self.ends@, k)));
            vstd::utf8::decode_utf8_split(pre + e, pre.len() as int);
            assert((pre + e).subrange(0, pre.len() as int) =~= pre);
            assert((pre + e).subrange(pre.len() as int, (pre + e).len() as int) =~= e);
            let sub = self@.subrange(0, k);
            assert(sub.drop_last() =~= self@.subrange(0, k - 1));
            assert(sub.last() == decode_utf8(e));
        }
    }

    /// The start and end offsets of entry `index`, or `None` past the top.
    pub fn get_bounds(&self, index: usize) -> (r: Option<(usize, usize)>)
        ensures
            index >= self@.len() ==> r is None,
            index < self@.len() ==> (r matches Some(b) && b.0 == total_len(
                self@.subrange(0, index as int),
            ) && b.1 == total_len(self@.subrange(0, index + 1)) && self.valid_bounds(b.0, b.1)
                && decode_utf8(self.bytes_between(b.0, b.1)) == self@[index as int]),
    {
        proof {
            use_type_invariant(self);
            if index < self.ends@.len() {
                self.lemma_offsets(index as int);
                self.lemma_offsets(index + 1);
                if index > 0 {
                    assert(self.ends@[index - 1] <= self.ends@[index as int]);
                }
            }
        }
        if index >= self.ends.len() {
            return None;
        }
        let (start, end) = if index > 0 {
            (self.ends[index - 1], self.ends[index])
        } else {
            (0, self.ends[0])
        };
        assert(valid_utf8(self.entry_bytes(index as int)));
        Some((start, end))
    }

    /// Entry `k` starts after the bytes of all the entries below it.
    proof fn lemma_offsets(&self, k: int)
        requires
            self.inv(),
            0 <= k <= self.ends@.len(),
        ensures
            entry_start(self.ends@, k) == total_len(self@.subrange(0, k)),
        decreases k,
    {
        if k > 0 {
            self.lemma_offsets(k - 1);
            if k - 1 > 0 {
                assert(self.ends@[k - 2] <= self.ends@[k - 1]);
            }
            let e = self.entry_bytes(k - 1);
            assert(valid_utf8(e));
            decode_utf8_encode_utf8(e);
            let sub = self@.subrange(0, k);
            assert(sub.drop_last() =~= self@.subrange(0, k - 1));
            assert(sub.last() == decode_utf8(e));
        } else {
            assert(self@.subrange(0, 0) =~= Seq::<Seq<char>>::empty());
        }
    }

    /// The bytes from offset `begin` to offset `end`.
    pub closed spec fn bytes_between(&self, begin: usize, end: usize) -> Seq<u8> {
        self.data@.subrange(begin as int, end as int)
    }

    /// Whether `begin..end` is a range of the buffer that holds valid UTF-8.
    pub closed spec fn valid_bounds(&self, begin: usize, end: usize) -> bool {
        &&& begin <= end <= self.data@.len()
        &&& valid_utf8(self.data@.subrange(begin as int, end as int))
    }

    /// The string stored between offsets `begin` and `end`, which must hold
    /// valid UTF-8 (as the bounds of any entry do).
    pub fn get_unchecked(&self, begin: usize, end: usize) -> (r: &str)
        requires
            self.valid_bounds(begin, end),
        ensures
            r@ == decode_utf8(self.bytes_between(begin, end)),
    {
        let slice = slice_subrange(self.data.as_slice(), begin, end);
        match str_from_utf8(slice) {
            Ok(s) => s,
            Err(_) => {
                assert(false);
                ""
            },
        }
    }

    /// Entry `index`, or `None` past the top.
    pub fn get(&self, index: usize) -> (r: Option<&str>)
        ensures
            index >= self@.len() ==> r is None,
            index < self@.len() ==> (r matches Some(s) && s@ == self@[index as int]),
    {
        match self.get_bounds(index) {
            Some((begin, end)) => Some(self.get_unchecked(begin, end)),
            None => None,
        }
    }

    /// The top string, or `None` when empty.
    pub fn get_top(&self) -> (r: Option<&str>)
        ensures
            self@.len() == 0 ==> r is None,
            self@.len() > 0 ==> (r matches Some(s) && s@ == self@.last()),
    {
        let len = self.ends.len();
        if len == 0 {
            None
        } else {
            self.get(len - 1)
        }
    }

    /// Removes the top string; `None` when empty.
    pub fn remove_top(&mut self) -> (r: Option<()>)
        ensures
            old(self)@.len() == 0 ==> r is None && final(self)@ == old(self)@,
            old(self)@.len() > 0 ==> r is Some && final(self)@ == old(self)@.drop_last(),
    {
        proof {
            use_type_invariant(&*self);
        }
        let k = self.ends.len();
        if k == 0 {
            return None;
        }
        let ghost old_self = *self;
        let new_end: usize = if k >= 2 { self.ends[k - 2] } else { 0 };
        let mut taken = StrStack::new();
        core::mem::swap(self, &mut taken);
        let StrStack { mut data, mut ends } = taken;
        ends.pop();
        data.truncate(new_end);
        proof {
            let ns = StrStack { data, ends };
            assert(ends@ =~= old_self.ends@.drop_last());
            assert(data@ =~= old_self.data@.subrange(0, new_end as int));
            assert forall|i: int| 0 <= i < ends@.len() implies #[trigger] valid_utf8(
                ns.entry_bytes(i),
            ) by {
                assert(old_self.ends@[i] <= old_self.ends@[k - 2]);
                assert(ns.entry_bytes(i) =~= old_self.entry_bytes(i));
            }
            assert forall|i: int| 0 <= i < ends@.len() implies valid_utf8(
                #[trigger] data@.subrange(0, ends@[i] as int),
            ) by {
                assert(old_self.ends@[i] <= old_self.ends@[k - 2]);
                assert(data@.subrange(0, ends@[i] as int) =~= old_self.data@.subrange(
                    0,
                    old_self.ends@[i] as int,
                ));
            }
            assert forall|i: int| 0 <= i < ends@.len() implies ends@[i] <= data@.len() by {
                assert(old_self.ends@[i] <= old_self.ends@[k - 2]);
            }
        }
        *self = StrStack { data, ends };
        proof {
            assert forall|i: int| 0 <= i < self.ends@.len() implies self.entry_bytes(i)
                == old_self.entry_bytes(i) by {
                assert(old_self.ends@[i] <= old_self.ends@[k - 2]);
                assert(self.entry_bytes(i) =~= old_self.entry_bytes(i));
            }
            assert(self@ =~= old_self@.drop_last());
        }
        Some(())
    }

    /// Pushes `s` on top.
    pub fn push(&mut self, s: &str)
        ensures
            final(self)@ == old(self)@.push(s@),
    {
        proof {
            use_type_invariant(&*self);
        }
        let ghost old_self = *self;
        let mut taken = StrStack::new();
        core::mem::swap(self, &mut taken);
        let StrStack { mut data, mut ends } = taken;
        let bytes = s.as_bytes();
        let mut i: usize = 0;
        let ghost n0 = data@.len();
        while i < bytes.len()
            invariant
                i <= bytes@.len(),
                n0 == old_self.data@.len(),
                data@ == old_self.data@ + bytes@.subrange(0, i as int),
            decreases bytes@.len() - i,
        {
            data.push(bytes[i]);
            i = i + 1;
            assert(data@ =~= old_self.data@ + bytes@.subrange(0, i as int));
        }
        assert(bytes@.subrange(0, bytes@.len() as int) =~= bytes@);
        ends.push(data.len());
        proof {
            let ns = StrStack { data, ends };
            let pre = old_self.data@;
            let k = old_self.ends@.len() as int;
            if k > 0 {
                assert(pre.subrange(0, old_self.ends@[k - 1] as int) =~= pre);
            } else {
                assert(pre =~= Seq::<u8>::empty());
            }
            assert(valid_utf8(pre));
            lemma_boundary_concat(pre, bytes@);
            assert forall|j: int| 0 <= j < ends@.len() implies #[trigger] valid_utf8(
                ns.entry_bytes(j),
            ) by {
                if j < k {
                    assert(ns.entry_bytes(j) =~= old_self.entry_bytes(j));
                } else {
                    assert(ns.entry_bytes(j) =~= bytes@);
                }
            }
            assert forall|j: int| 0 <= j < ends@.len() implies valid_utf8(
                #[trigger] data@.subrange(0, ends@[j] as int),
            ) by {
                if j < k {
                    assert(data@.subrange(0, ends@[j] as int) =~= old_self.data@.subrange(
                        0,
                        old_self.ends@[j] as int,
                    ));
                } else {
                    assert(data@.subrange(0, ends@[j] as int) =~= data@);
                }
            }
            assert forall|i: int, j: int| 0 <= i <= j < ends@.len() implies ends@[i]
                <= ends@[j] by {
                if j == k {
                    if i < k {
                        assert(old_self.ends@[i] <= old_self.data@.len());
                    }
                }
            }
            assert forall|i: int| 0 <= i < ends@.len() implies ends@[i] <= data@.len() by {
                if i < k {
                    assert(old_self.ends@[i] <= old_self.data@.len());
                }
            }
        }
        *self = StrStack { data, ends };
        proof {
            let k = old_self.ends@.len() as int;
            assert forall|i: int| 0 <= i < k implies self.entry_bytes(i) == old_self.entry_bytes(
                i,
            ) by {
                assert(self.entry_bytes(i) =~= old_self.entry_bytes(i));
            }
            assert(self.entry_bytes(k) =~= bytes@);
            assert(self@ =~= old_self@.push(s@));
        }
    }

    /// Removes the top string and returns it converted, or `None` when empty.
    pub fn pop_owned<T>(&mut self) -> (r: Option<T>)
        where
            T: for<'a> From<&'a str>,
        ensures
            old(self)@.len() == 0 ==> r is None && final(self)@ == old(self)@,
            old(self)@.len() > 0 ==> r is Some && final(self)@ == old(self)@.drop_last(),
    {
        let s: T = match self.get_top() {
            Some(top) => T::from(top),
            None => {
                return None;
            },
        };
        self.remove_top();
        Some(s)
    }

    /// An iterator over the strings, bottom first.
    pub fn iter(&self) -> (r: StrStackIter<'_>)
        ensures
            r@ == self@,
    {
        StrStackIter::new(self)
    }

}

impl Clone for StrStack {
    /// A copy holding the same strings.
    fn clone(&self) -> (r: Self)
        ensures
            r@ == self@,
    {
        proof {
            use_type_invariant(self);
        }
        let data = self.data.clone();
        let ends = self.ends.clone();
        proof {
            assert forall|i: int| 0 <= i < data@.len() implies data@[i] == self.data@[i] by {
                assert(cloned::<u8>(self.data[i], data[i]));
            }
            assert forall|i: int| 0 <= i < ends@.len() implies ends@[i] == self.ends@[i] by {
                assert(cloned::<usize>(self.ends[i], ends[i]));
            }
            assert(data@ =~= self.data@);
            assert(ends@ =~= self.ends@);
            let ns = StrStack { data, ends };
            assert forall|i: int| 0 <= i < ends@.len() implies #[trigger] valid_utf8(
                ns.entry_bytes(i),
            ) by {
                assert(ns.entry_bytes(i) == self.entry_bytes(i));
            }
            assert forall|i: int| 0 <= i < ends@.len() implies valid_utf8(
                #[trigger] data@.subrange(0, ends@[i] as int),
            ) by {
                assert(data@.subrange(0, ends@[i] as int) == self.data@.subrange(
                    0,
                    self.ends@[i] as int,
                ));
            }
        }
        let r = StrStack { data, ends };
        proof {
            assert(r.data@ =~= self.data@);
            assert(r.ends@ =~= self.ends@);
            assert(r@ =~= self@);
        }
        r
    }
}

impl Default for StrStack {
    fn default() -> (r: Self)
        ensures
            r@ == Seq::<Seq<char>>::empty(),
    {
        Self::new()
    }
}

/// The position of the next string to yield.
#[derive(Clone, Copy, Debug)]
pub struct Cursor {
    pub index: usize,
    pub begin: usize,
    pub end: usize,
}

impl Cursor {
    pub fn new(index: usize, begin: usize, end: usize) -> (r: Self)
        ensures
            r == (Cursor { index, begin, end }),
    {
        Self { index, begin, end }
    }
}

/// Yields the strings of a `StrStack`, bottom first.
pub struct StrStackIter<'a> {
    stack: &'a StrStack,
    next: Option<Cursor>,
}

impl<'a> View for StrStackIter<'a> {
    type V = Seq<Seq<char>>;

    /// The strings still to be yielded.
    closed spec fn view(&self) -> Seq<Seq<char>> {
        self.stack@.subrange(self.position(), self.stack@.len() as int)
    }
}

impl<'a> StrStackIter<'a> {
    #[verifier::type_invariant]
    spec fn inv(self) -> bool {
        match self.next {
            Some(c) => {
                &&& c.index < self.stack.ends@.len()
                &&& c.begin == entry_start(self.stack.ends@, c.index as int)
                &&& c.end == self.stack.ends@[c.index as int]
            },
            None => true,
        }
    }

    /// The index of the next string to yield.
    closed spec fn position(&self) -> int {
        match self.next {
            Some(c) => c.index as int,
            None => self.stack@.len() as int,
        }
    }

    /// An iterator over all the strings of `stack`.
    pub fn new(stack: &'a StrStack) -> (r: Self)
        ensures
            r@ == stack@,
    {
        proof {
            use_type_invariant(stack);
        }
        let next = if stack.ends.len() > 0 {
            Some(Cursor::new(0, 0, stack.ends[0]))
        } else {
            None
        };
        let r = StrStackIter { stack, next };
        assert(r@ =~= stack@);
        r
    }

    /// The next string, or `None` once all have been yielded.
    pub fn next(&mut self) -> (r: Option<&'a str>)
        ensures
            old(self)@.len() == 0 ==> r is None && final(self)@ == old(self)@,
            old(self)@.len() > 0 ==> (r matches Some(s) && s@ == old(self)@[0] && final(self)@
                == old(self)@.drop_first()),
    {
        proof {
            use_type_invariant(&*self);
            use_type_invariant(self.stack);
        }
        match self.next {
            None => None,
            Some(c) => {
                let stack = self.stack;
                let count = stack.ends.len();
                let ni = c.index + 1;
                proof {
                    assert(valid_utf8(stack.entry_bytes(c.index as int)));
                    if c.index > 0 {
                        assert(stack.ends@[c.index - 1] <= stack.ends@[c.index as int]);
                    }
                }
                self.next = if ni < count {
                    Some(Cursor::new(ni, c.end, stack.ends[ni]))
                } else {
                    None
                };
                let s = stack.get_unchecked(c.begin, c.end);
                assert(self@ =~= old(self)@.drop_first());
                Some(s)
            },
        }
    }

    /// The number of strings still to be yielded.
    pub fn len(&self) -> (r: usize)
        ensures
            r == self@.len(),
    {
        proof {
            use_type_invariant(self);
            use_type_invariant(self.stack);
        }
        match self.next {
            Some(c) => self.stack.ends.len() - c.index,
            None => 0,
        }
    }
}

} // verus!
