//! Calls into std that vstd gives no specification, each with the contract its documentation states.
use vstd::prelude::*;
use vstd::string::StringSliceAdditionalSpecFns;
use vstd::utf8::*;

verus! {

/// Relies on `core::str::from_utf8`: it accepts exactly the valid UTF-8 byte
/// sequences, and the `str` it returns views those same bytes.
#[verifier::external_body]
pub(crate) fn str_from_utf8<'a>(b: &'a [u8]) -> (r: Result<&'a str, core::str::Utf8Error>)
    ensures
        r is Ok <==> valid_utf8(b@),
        r matches Ok(s) ==> s.spec_bytes() == b@,
{
    core::str::from_utf8(b)
}

/// `alloc::string::FromUtf8Error`, carried through unchanged.
#[verifier::external_type_specification]
#[verifier::external_body]
pub struct ExFromUtf8Error(std::string::FromUtf8Error);

/// `alloc::string::FromUtf16Error`, carried through unchanged.
#[verifier::external_type_specification]
#[verifier::external_body]
pub struct ExFromUtf16Error(std::string::FromUtf16Error);

/// What `String::from_utf16` yields for `units`: the decoded characters, or
/// `None` when the units hold an unpaired surrogate.
pub uninterp spec fn utf16_decoding(units: Seq<u16>) -> Option<Seq<char>>;

/// What `String::from_utf16_lossy` yields for `units`.
pub uninterp spec fn utf16_lossy_decoding(units: Seq<u16>) -> Seq<char>;

/// What `String::from_utf8_lossy` yields for `bytes`.
pub uninterp spec fn utf8_lossy_decoding(bytes: Seq<u8>) -> Seq<char>;

/// The byte length of a `String`.
pub open spec fn string_bytes(s: &String) -> Seq<u8> {
    encode_utf8(s@)
}

/// Relies on `String::with_capacity`: an empty string.
#[verifier::external_body]
pub(crate) fn string_with_capacity(capacity: usize) -> (r: String)
    requires
        capacity <= isize::MAX,
    ensures
        r@ == Seq::<char>::empty(),
{
    String::with_capacity(capacity)
}

/// Relies on `String::push_str`: appends `t`.
#[verifier::external_body]
pub(crate) fn string_push_str(s: &mut String, t: &str)
    ensures
        final(s)@ == old(s)@ + t@,
{
    s.push_str(t)
}

/// Relies on `String::push`: appends `c`.
#[verifier::external_body]
pub(crate) fn string_push(s: &mut String, c: char)
    ensures
        final(s)@ == old(s)@.push(c),
{
    s.push(c)
}

/// Relies on `String::truncate`: keeps the first `new_len` bytes; a length at
/// or past the end changes nothing. It panics off a character boundary.
#[verifier::external_body]
pub(crate) fn string_truncate(s: &mut String, new_len: usize)
    requires
        new_len >= string_bytes(old(s)).len() || is_char_boundary(
            string_bytes(old(s)),
            new_len as int,
        ),
    ensures
        new_len >= string_bytes(old(s)).len() ==> final(s)@ == old(s)@,
        new_len < string_bytes(old(s)).len() ==> string_bytes(final(s)) == string_bytes(
            old(s),
        ).subrange(0, new_len as int),
{
    s.truncate(new_len)
}

/// Relies on `String::pop`: removes and returns the last character, `None` when empty.
#[verifier::external_body]
pub(crate) fn string_pop(s: &mut String) -> (r: Option<char>)
    ensures
        old(s)@.len() == 0 ==> r is None && final(s)@ == old(s)@,
        old(s)@.len() > 0 ==> r == Some(old(s)@.last()) && final(s)@ == old(s)@.drop_last(),
{
    s.pop()
}

/// Relies on `String::clear`: the string becomes empty.
#[verifier::external_body]
pub(crate) fn string_clear(s: &mut String)
    ensures
        final(s)@ == Seq::<char>::empty(),
{
    s.clear()
}

/// Relies on `String::insert_str`: inserts `t` at byte index `idx`, which must
/// be a character boundary (it panics otherwise).
#[verifier::external_body]
pub(crate) fn string_insert_str(s: &mut String, idx: usize, t: &str)
    requires
        is_char_boundary(string_bytes(old(s)), idx as int),
    ensures
        string_bytes(final(s)) == string_bytes(old(s)).subrange(0, idx as int) + t.spec_bytes()
            + string_bytes(old(s)).subrange(idx as int, string_bytes(old(s)).len() as int),
{
    s.insert_str(idx, t)
}

/// Relies on `String::insert`: inserts `c` at byte index `idx`, which must be a
/// character boundary (it panics otherwise).
#[verifier::external_body]
pub(crate) fn string_insert(s: &mut String, idx: usize, c: char)
    requires
        is_char_boundary(string_bytes(old(s)), idx as int),
    ensures
        string_bytes(final(s)) == string_bytes(old(s)).subrange(0, idx as int) + encode_scalar(
            c as u32,
        ) + string_bytes(old(s)).subrange(idx as int, string_bytes(old(s)).len() as int),
{
    s.insert(idx, c)
}

/// Relies on `String::remove`: removes and returns the character that starts
/// at byte index `idx`, a boundary before the end (it panics otherwise).
#[verifier::external_body]
pub(crate) fn string_remove(s: &mut String, idx: usize) -> (r: char)
    requires
        idx < string_bytes(old(s)).len(),
        is_char_boundary(string_bytes(old(s)), idx as int),
    ensures
        ({
            let b = string_bytes(old(s));
            &&& r == decode_utf8(b.subrange(idx as int, b.len() as int))[0]
            &&& string_bytes(final(s)) == b.subrange(0, idx as int) + b.subrange(
                idx + encode_scalar(r as u32).len(),
                b.len() as int,
            )
        }),
{
    s.remove(idx)
}

/// Relies on `String::split_off`: keeps the bytes before `at`, a character
/// boundary (it panics otherwise), and returns the rest.
#[verifier::external_body]
pub(crate) fn string_split_off(s: &mut String, at: usize) -> (r: String)
    requires
        is_char_boundary(string_bytes(old(s)), at as int),
    ensures
        string_bytes(final(s)) == string_bytes(old(s)).subrange(0, at as int),
        string_bytes(&r) == string_bytes(old(s)).subrange(
            at as int,
            string_bytes(old(s)).len() as int,
        ),
{
    s.split_off(at)
}

/// Relies on `String::replace_range`: replaces the bytes `start..end`, both
/// character boundaries (it panics otherwise), by `t`.
#[verifier::external_body]
pub(crate) fn string_replace_range(s: &mut String, start: usize, end: usize, t: &str)
    requires
        start <= end,
        is_char_boundary(string_bytes(old(s)), start as int),
        is_char_boundary(string_bytes(old(s)), end as int),
    ensures
        string_bytes(final(s)) == string_bytes(old(s)).subrange(0, start as int) + t.spec_bytes()
            + string_bytes(old(s)).subrange(end as int, string_bytes(old(s)).len() as int),
{
    s.replace_range(start..end, t)
}

/// Relies on `String::capacity`: never less than the length.
#[verifier::external_body]
pub(crate) fn string_capacity(s: &String) -> (r: usize)
    ensures
        r >= string_bytes(s).len(),
{
    s.capacity()
}

/// Relies on `String::reserve`: makes room and leaves the content as it was.
#[verifier::external_body]
pub(crate) fn string_reserve(s: &mut String, additional: usize)
    requires
        string_bytes(old(s)).len() + additional <= isize::MAX,
    ensures
        final(s)@ == old(s)@,
{
    s.reserve(additional)
}

/// Relies on `String::reserve_exact`: makes room and leaves the content as it was.
#[verifier::external_body]
pub(crate) fn string_reserve_exact(s: &mut String, additional: usize)
    requires
        string_bytes(old(s)).len() + additional <= isize::MAX,
    ensures
        final(s)@ == old(s)@,
{
    s.reserve_exact(additional)
}

/// Relies on `String::try_reserve`: the content stays as it was, whether or not
/// room could be made.
#[verifier::external_body]
pub(crate) fn string_try_reserve(s: &mut String, additional: usize) -> (r: Result<
    (),
    std::collections::TryReserveError,
>)
    ensures
        final(s)@ == old(s)@,
{
    s.try_reserve(additional)
}

/// Relies on `String::try_reserve_exact`: the content stays as it was, whether
/// or not room could be made.
#[verifier::external_body]
pub(crate) fn string_try_reserve_exact(s: &mut String, additional: usize) -> (r: Result<
    (),
    std::collections::TryReserveError,
>)
    ensures
        final(s)@ == old(s)@,
{
    s.try_reserve_exact(additional)
}

/// Relies on `String::shrink_to_fit`: the content stays as it was.
#[verifier::external_body]
pub(crate) fn string_shrink_to_fit(s: &mut String)
    ensures
        final(s)@ == old(s)@,
{
    s.shrink_to_fit()
}

/// Relies on `String::shrink_to`: the content stays as it was.
#[verifier::external_body]
pub(crate) fn string_shrink_to(s: &mut String, min_capacity: usize)
    ensures
        final(s)@ == old(s)@,
{
    s.shrink_to(min_capacity)
}

/// Relies on `String::into_bytes`: the UTF-8 bytes of the content.
#[verifier::external_body]
pub(crate) fn string_into_bytes(s: String) -> (r: Vec<u8>)
    ensures
        r@ == encode_utf8(s@),
{
    s.into_bytes()
}

/// Relies on `String::into_boxed_str`: the same content, boxed.
#[verifier::external_body]
pub(crate) fn string_into_boxed_str(s: String) -> (r: Box<str>)
    ensures
        r@ == s@,
{
    s.into_boxed_str()
}

/// Relies on `String::leak`: the same content, never freed.
#[verifier::external_body]
pub(crate) fn string_leak<'a>(s: String) -> (r: &'a mut str)
    ensures
        r@ == s@,
{
    s.leak()
}

/// Relies on `Rc::<str>::from(String)`: the same content, in a shared allocation.
#[verifier::external_body]
pub(crate) fn rc_str_from_string(s: String) -> (r: std::rc::Rc<str>)
    ensures
        (*r)@ == s@,
{
    std::rc::Rc::from(s)
}

/// Relies on `Arc::<str>::from(String)`: the same content, in a shared allocation.
#[verifier::external_body]
pub(crate) fn arc_str_from_string(s: String) -> (r: std::sync::Arc<str>)
    ensures
        (*r)@ == s@,
{
    std::sync::Arc::from(s)
}

/// Relies on `String::as_mut_str`: a mutable view of the content; what is
/// written through it is the content afterwards.
#[verifier::external_body]
pub(crate) fn string_as_mut_str(s: &mut String) -> (r: &mut str)
    ensures
        r@ == old(s)@,
        final(s)@ == final(r)@,
{
    s.as_mut_str()
}

/// Relies on `String::from_utf8`: accepts exactly the valid UTF-8 byte vectors
/// and keeps their content.
#[verifier::external_body]
pub(crate) fn string_from_utf8(v: Vec<u8>) -> (r: Result<String, std::string::FromUtf8Error>)
    ensures
        r is Ok <==> valid_utf8(v@),
        r matches Ok(s) ==> encode_utf8(s@) == v@,
{
    String::from_utf8(v)
}

/// Relies on `String::from_utf16`: decodes `v`, failing on unpaired surrogates.
#[verifier::external_body]
pub(crate) fn string_from_utf16(v: &[u16]) -> (r: Result<String, std::string::FromUtf16Error>)
    ensures
        r is Ok <==> utf16_decoding(v@) is Some,
        r matches Ok(s) ==> s@ == utf16_decoding(v@)->0,
{
    String::from_utf16(v)
}

/// Relies on `String::from_utf16_lossy`: decodes `v`, replacing unpaired surrogates.
#[verifier::external_body]
pub(crate) fn string_from_utf16_lossy(v: &[u16]) -> (r: String)
    ensures
        r@ == utf16_lossy_decoding(v@),
        v@.len() == 0 ==> r@.len() == 0,
{
    String::from_utf16_lossy(v)
}

/// Relies on `String::from_utf8_lossy`: valid UTF-8 is decoded as it is and
/// borrowed; anything else is decoded with replacement characters into a new string.
#[verifier::external_body]
pub(crate) fn string_from_utf8_lossy<'a>(v: &'a [u8]) -> (r: std::borrow::Cow<'a, str>)
    ensures
        r@ == utf8_lossy_decoding(v@),
        valid_utf8(v@) ==> r@ == decode_utf8(v@) && r is Borrowed,
        !valid_utf8(v@) ==> r is Owned,
{
    String::from_utf8_lossy(v)
}

} // verus!
