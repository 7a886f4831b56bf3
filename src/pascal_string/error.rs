use vstd::prelude::*;

verus! {

/// `core::str::Utf8Error`, carried through unchanged.
#[verifier::external_type_specification]
#[verifier::external_body]
pub struct ExUtf8Error(core::str::Utf8Error);

/// `core::fmt::Error`, the error a writer reports.
#[verifier::external_type_specification]
pub struct ExFmtError(core::fmt::Error);

/// An error returned when a conversion from a `&str` to a `PascalString` fails.
#[derive(Debug, Clone, Copy, PartialEq, Eq, Structural)]
pub enum TryFromStrError {
    /// The string is too long to fit into a `PascalString`.
    TooLong,
}

/// An error returned when a conversion from a `&[u8]` to a `PascalString` fails.
#[derive(Debug, Clone, Copy, PartialEq, Eq)]
pub enum TryFromBytesError {
    /// The string is too long to fit into a `PascalString`.
    TooLong,
    /// The bytes are not valid UTF-8.
    Utf8Error(core::str::Utf8Error),
}

/// An error returned when inserting into a `PascalString` fails.
#[derive(Debug, Clone, Copy, PartialEq, Eq, Structural)]
pub enum InsertError {
    /// The index is past the end of the content.
    OutOfBounds { idx: usize, len: usize },
    /// The index falls inside the encoding of a character.
    NotCharBoundary { idx: usize },
    /// The result would not fit into the capacity.
    TooLong,
}

/// An error returned when removing from a `PascalString` fails.
#[derive(Debug, Clone, Copy, PartialEq, Eq, Structural)]
pub enum RemoveError {
    /// The index is not the start of a character within the content.
    OutOfBounds { idx: usize, len: usize },
    /// The index falls inside the encoding of a character.
    NotCharBoundary { idx: usize },
}

impl From<TryFromStrError> for TryFromBytesError {
    fn from(e: TryFromStrError) -> (r: Self)
        ensures
            r == TryFromBytesError::TooLong,
    {
        match e {
            TryFromStrError::TooLong => TryFromBytesError::TooLong,
        }
    }
}

impl vstd::std_specs::convert::FromSpecImpl<TryFromStrError> for TryFromBytesError {
    open spec fn obeys_from_spec() -> bool {
        true
    }

    open spec fn from_spec(e: TryFromStrError) -> Self {
        TryFromBytesError::TooLong
    }
}

impl From<core::str::Utf8Error> for TryFromBytesError {
    fn from(e: core::str::Utf8Error) -> (r: Self)
        ensures
            r == TryFromBytesError::Utf8Error(e),
    {
        TryFromBytesError::Utf8Error(e)
    }
}

impl vstd::std_specs::convert::FromSpecImpl<core::str::Utf8Error> for TryFromBytesError {
    open spec fn obeys_from_spec() -> bool {
        true
    }

    open spec fn from_spec(e: core::str::Utf8Error) -> Self {
        TryFromBytesError::Utf8Error(e)
    }
}

} // verus!
