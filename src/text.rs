//! Facts about UTF-8 byte sequences that the string types rely on.
use vstd::prelude::*;
use vstd::string::StringSliceAdditionalSpecFns;
use vstd::utf8::*;

verus! {

broadcast use vstd::utf8::group_utf8_lib;

/// The largest character boundary of `bytes` that is at most `i`
/// (0 when `i` is negative; the whole length when `i` is past the end).
pub open spec fn floor_boundary(bytes: Seq<u8>, i: int) -> int
    decreases i,
{
    if i <= 0 {
        0
    } else if i >= bytes.len() {
        bytes.len() as int
    } else if is_char_boundary(bytes, i) {
        i
    } else {
        floor_boundary(bytes, i - 1)
    }
}

/// Encoding distributes over concatenation.
pub proof fn lemma_encode_concat(a: Seq<char>, b: Seq<char>)
    ensures
        encode_utf8(a + b) == encode_utf8(a) + encode_utf8(b),
    decreases a.len(),
{
    if a.len() == 0 {
        assert(a + b =~= b);
        assert(encode_utf8(a) + encode_utf8(b) =~= encode_utf8(b));
    } else {
        assert((a + b).drop_first() =~= a.drop_first() + b);
        lemma_encode_concat(a.drop_first(), b);
        assert((a + b)[0] == a[0]);
        assert(encode_utf8(a + b) =~= encode_utf8(a) + encode_utf8(b));
    }
}

/// The encoding of one character is its scalar encoding.
pub proof fn lemma_encode_single(c: char)
    ensures
        encode_utf8(seq![c]) == encode_scalar(c as u32),
        1 <= encode_scalar(c as u32).len() <= 4,
{
    reveal_with_fuel(encode_utf8, 2);
    assert(seq![c].drop_first() =~= Seq::<char>::empty());
    assert(encode_scalar(c as u32) + Seq::<u8>::empty() =~= encode_scalar(c as u32));
}

/// The seam between two valid sequences is a character boundary of their concatenation.
pub proof fn lemma_boundary_concat(x: Seq<u8>, y: Seq<u8>)
    requires
        valid_utf8(x),
        valid_utf8(y),
    ensures
        valid_utf8(x + y),
        is_char_boundary(x + y, x.len() as int),
    decreases x.len(),
{
    if x.len() > 0 {
        let k = length_of_first_scalar(x);
        let xs = pop_first_scalar(x);
        assert(valid_first_scalar(x + y)) by {
            assert((x + y)[0] == x[0]);
            assert(1 <= k <= x.len());
            assert(forall|j: int| 0 <= j < k ==> (x + y)[j] == x[j]);
        }
        assert(length_of_first_scalar(x + y) == k);
        assert(pop_first_scalar(x + y) =~= xs + y);
        lemma_boundary_concat(xs, y);
    }
}

/// Splitting a valid sequence at a boundary and decoding each part yields the
/// decoding of the whole; both parts are valid.
pub proof fn lemma_split(bytes: Seq<u8>, i: int)
    requires
        valid_utf8(bytes),
        is_char_boundary(bytes, i),
    ensures
        0 <= i <= bytes.len(),
        valid_utf8(bytes.subrange(0, i)),
        valid_utf8(bytes.subrange(i, bytes.len() as int)),
        decode_utf8(bytes) == decode_utf8(bytes.subrange(0, i)) + decode_utf8(
            bytes.subrange(i, bytes.len() as int),
        ),
{
    lemma_boundary_in_range(bytes, i);
    valid_utf8_split(bytes, i);
    decode_utf8_split(bytes, i);
}

/// A boundary lies within the sequence.
pub proof fn lemma_boundary_in_range(bytes: Seq<u8>, i: int)
    requires
        valid_utf8(bytes),
        is_char_boundary(bytes, i),
    ensures
        0 <= i <= bytes.len(),
    decreases bytes.len(),
{
    if i != 0 {
        lemma_boundary_in_range(pop_first_scalar(bytes), i - length_of_first_scalar(bytes));
    }
}

/// What `floor_boundary` yields is a boundary no greater than the bound, and no
/// boundary lies strictly between it and the bound.
pub proof fn lemma_floor_boundary(bytes: Seq<u8>, i: int)
    requires
        valid_utf8(bytes),
    ensures
        is_char_boundary(bytes, floor_boundary(bytes, i)),
        0 <= floor_boundary(bytes, i) <= bytes.len(),
        i >= 0 ==> floor_boundary(bytes, i) <= i,
        forall|j: int|
            floor_boundary(bytes, i) < j <= i && j <= bytes.len() ==> !is_char_boundary(
                bytes,
                j,
            ),
    decreases i,
{
    is_char_boundary_start_end_of_seq(bytes);
    if i > 0 && i < bytes.len() && !is_char_boundary(bytes, i) {
        lemma_floor_boundary(bytes, i - 1);
    }
}

/// Cutting a valid sequence at `floor_boundary(bytes, limit)` keeps the
/// longest prefix that ends on a character boundary and has at most `limit`
/// bytes: the prefix is valid, fits, and is strict when the sequence does not fit.
pub proof fn lemma_truncation_prefix(bytes: Seq<u8>, limit: int)
    requires
        valid_utf8(bytes),
        limit >= 0,
    ensures
        ({
            let k = floor_boundary(bytes, limit);
            &&& 0 <= k <= limit
            &&& k <= bytes.len()
            &&& valid_utf8(bytes.subrange(0, k))
            &&& is_char_boundary(bytes, k)
            &&& forall|j: int| k < j <= limit && j <= bytes.len() ==> !is_char_boundary(bytes, j)
            &&& bytes.len() > limit ==> k < bytes.len()
            &&& bytes.len() <= limit ==> k == bytes.len()
        }),
{
    lemma_floor_boundary(bytes, limit);
    lemma_split(bytes, floor_boundary(bytes, limit));
}

/// The characters of `s` whose flag in `keep` is set, in order.
pub open spec fn kept(s: Seq<char>, keep: Seq<bool>) -> Seq<char>
    decreases s.len(),
{
    if s.len() == 0 || keep.len() == 0 {
        Seq::<char>::empty()
    } else if keep.last() {
        kept(s.drop_last(), keep.drop_last()).push(s.last())
    } else {
        kept(s.drop_last(), keep.drop_last())
    }
}

/// Keeping some characters never lengthens the encoding.
pub proof fn lemma_kept_len(s: Seq<char>, keep: Seq<bool>)
    requires
        keep.len() == s.len(),
    ensures
        encode_utf8(kept(s, keep)).len() <= encode_utf8(s).len(),
    decreases s.len(),
{
    if s.len() > 0 {
        lemma_kept_len(s.drop_last(), keep.drop_last());
        lemma_encode_concat(s.drop_last(), seq![s.last()]);
        assert(s.drop_last() + seq![s.last()] =~= s);
        let k = kept(s.drop_last(), keep.drop_last());
        lemma_encode_concat(k, seq![s.last()]);
        assert(k + seq![s.last()] =~= k.push(s.last()));
    }
}

/// The character that starts at boundary `i` of a valid sequence: its
/// encoding is the next bytes, it ends at a boundary, and no boundary lies inside it.
pub proof fn lemma_char_at(b: Seq<u8>, i: int)
    requires
        valid_utf8(b),
        is_char_boundary(b, i),
        i < b.len(),
    ensures
        decode_utf8(b.subrange(i, b.len() as int)).len() > 0,
        ({
            let c = decode_utf8(b.subrange(i, b.len() as int))[0];
            let l = encode_scalar(c as u32).len() as int;
            &&& 1 <= l <= 4
            &&& i + l <= b.len()
            &&& b.subrange(i, i + l) == encode_scalar(c as u32)
            &&& is_char_boundary(b, i + l)
            &&& forall|j: int| i < j < i + l ==> !is_char_boundary(b, j)
            &&& (i + l == b.len() ==> decode_utf8(b.subrange(i, b.len() as int)) == seq![c])
        }),
{
    lemma_split(b, i);
    let t = b.subrange(i, b.len() as int);
    let c = decode_utf8(t)[0];
    assert(c == decode_first_scalar(t) as char);
    decode_utf8_first_scalar(t);
    lemma_encode_single(c);
    let l = length_of_first_scalar(t);
    assert(encode_scalar(c as u32) == take_first_scalar(t));
    assert(b.subrange(i, i + l) =~= take_first_scalar(t));
    let rest = pop_first_scalar(t);
    assert(valid_utf8(rest));
    assert forall|j: int| i < j < i + l implies !is_char_boundary(b, j) by {
        is_char_boundary_iff_not_is_continuation_byte(b, j);
        assert(b[j] == t[j - i]);
    }
    if i + l < b.len() {
        assert(rest[0] == b[i + l]);
        is_char_boundary_iff_not_is_continuation_byte(b, i + l);
    } else {
        is_char_boundary_start_end_of_seq(b);
        assert(rest.len() == 0);
        assert(decode_utf8(t) =~= seq![c]);
    }
}

/// The largest character boundary of `s` that is at most `i`.
pub fn floor_char_boundary(s: &str, i: usize) -> (r: usize)
    ensures
        r == floor_boundary(s.spec_bytes(), i as int),
{
    let n = s.as_bytes().len();
    if i >= n {
        return n;
    }
    let mut j = i;
    while j > 0 && !s.is_char_boundary(j)
        invariant
            j <= i < n,
            n == s.spec_bytes().len(),
            floor_boundary(s.spec_bytes(), j as int) == floor_boundary(s.spec_bytes(), i as int),
        decreases j,
    {
        j = j - 1;
    }
    j
}

/// Lexicographic order of byte sequences, the order of `str`.
pub open spec fn lex_cmp(a: Seq<u8>, b: Seq<u8>) -> core::cmp::Ordering
    decreases a.len(),
{
    if a.len() == 0 {
        if b.len() == 0 {
            core::cmp::Ordering::Equal
        } else {
            core::cmp::Ordering::Less
        }
    } else if b.len() == 0 {
        core::cmp::Ordering::Greater
    } else if a[0] < b[0] {
        core::cmp::Ordering::Less
    } else if a[0] > b[0] {
        core::cmp::Ordering::Greater
    } else {
        lex_cmp(a.drop_first(), b.drop_first())
    }
}

/// Compares two byte slices in lexicographic order.
pub fn compare_bytes(a: &[u8], b: &[u8]) -> (r: core::cmp::Ordering)
    ensures
        r == lex_cmp(a@, b@),
{
    let mut i: usize = 0;
    assert(a@.subrange(0, a@.len() as int) =~= a@);
    assert(b@.subrange(0, b@.len() as int) =~= b@);
    while i < a.len() && i < b.len() && a[i] == b[i]
        invariant
            i <= a@.len(),
            i <= b@.len(),
            lex_cmp(a@, b@) == lex_cmp(a@.subrange(i as int, a@.len() as int), b@.subrange(
                i as int,
                b@.len() as int,
            )),
        decreases a@.len() - i,
    {
        proof {
            let sa = a@.subrange(i as int, a@.len() as int);
            let sb = b@.subrange(i as int, b@.len() as int);
            assert(sa.drop_first() =~= a@.subrange(i + 1, a@.len() as int));
            assert(sb.drop_first() =~= b@.subrange(i + 1, b@.len() as int));
        }
        i = i + 1;
    }
    if i == a.len() {
        if i == b.len() {
            core::cmp::Ordering::Equal
        } else {
            core::cmp::Ordering::Less
        }
    } else if i == b.len() {
        core::cmp::Ordering::Greater
    } else if a[i] < b[i] {
        core::cmp::Ordering::Less
    } else {
        core::cmp::Ordering::Greater
    }
}

/// Whether two byte slices are equal.
pub fn equal_bytes(a: &[u8], b: &[u8]) -> (r: bool)
    ensures
        r == (a@ == b@),
{
    if a.len() != b.len() {
        return false;
    }
    let mut i: usize = 0;
    while i < a.len()
        invariant
            i <= a@.len(),
            a@.len() == b@.len(),
            forall|j: int| 0 <= j < i ==> a@[j] == b@[j],
        decreases a@.len() - i,
    {
        if a[i] != b[i] {
            return false;
        }
        i = i + 1;
    }
    assert(a@ =~= b@);
    true
}

/// The UTF-8 encoding of `c` in the first bytes of a four-byte buffer, with its length.
pub fn encode_char(c: char) -> (r: ([u8; 4], usize))
    ensures
        1 <= r.1 <= 4,
        r.1 == encode_scalar(c as u32).len(),
        r.0@.subrange(0, r.1 as int) == encode_scalar(c as u32),
{
    let v = c as u32;
    proof {
        lemma_encode_single(c);
    }
    if v <= 0x7f {
        let r = ([(v & 0x7f) as u8, 0, 0, 0], 1);
        assert(r.0@.subrange(0, 1) =~= encode_scalar(v));
        r
    } else if v <= 0x7ff {
        let r = ([0xc0 | ((v >> 6) & 0x1f) as u8, 0x80 | (v & 0x3f) as u8, 0, 0], 2);
        assert(r.0@.subrange(0, 2) =~= encode_scalar(v));
        r
    } else if v <= 0xffff {
        let r = (
            [
                0xe0 | ((v >> 12) & 0x0f) as u8,
                0x80 | ((v >> 6) & 0x3f) as u8,
                0x80 | (v & 0x3f) as u8,
                0,
            ],
            3,
        );
        assert(r.0@.subrange(0, 3) =~= encode_scalar(v));
        r
    } else {
        let r = (
            [
                0xf0 | ((v >> 18) & 0x7) as u8,
                0x80 | ((v >> 12) & 0x3f) as u8,
                0x80 | ((v >> 6) & 0x3f) as u8,
                0x80 | (v & 0x3f) as u8,
            ],
            4,
        );
        assert(r.0@.subrange(0, 4) =~= encode_scalar(v));
        r
    }
}

} // verus!
