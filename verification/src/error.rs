//! The failures that decoding and encoding can report.

use crate::class::Class;
use crate::tag::Tag;
use vstd::prelude::*;

verus! {

/// How many more bytes a decoder needs before it can go on.
#[derive(Clone, Copy, Debug, PartialEq, Eq, Structural)]
pub enum Needed {
    /// More bytes are needed, and their number is not known.
    Unknown,
    /// This many more bytes are needed.
    Size(usize),
}

/// A failure of this codec.
#[allow(inconsistent_fields)]
#[derive(Clone, Copy, Debug, PartialEq, Eq, Structural)]
pub enum Error {
    /// The identifier octets hold a tag number above `u32::MAX`, or are not
    /// in canonical form where DER is asked for. The header codec reports
    /// identifier octets that are cut short so too; where a whole record is
    /// decoded, those are `Incomplete`.
    InvalidTag,
    /// The length octets use a reserved first octet, hold a length that
    /// `usize` cannot represent, or are not in canonical form where DER is
    /// asked for. The header codec reports length octets that are cut short
    /// so too; where a whole record is decoded, those are `Incomplete`.
    InvalidLength,
    /// An indefinite length stands where only a definite one is allowed:
    /// under DER, in a primitive encoding, or in a value to serialize.
    IndefiniteLengthUnexpected,
    /// A primitive encoding stands where a constructed one is required.
    ConstructExpected,
    /// A constructed encoding stands where DER requires a primitive one.
    ConstructUnexpected,
    /// The decoded tag number is not the one of the expected type.
    UnexpectedTag { expected: Tag, actual: Tag },
    /// The decoded class is not the one of the expected type.
    UnexpectedClass { expected: Class, actual: Class },
    /// The content of a string is not valid in the string's character set.
    StringInvalidCharset,
    /// A borrowed view was asked of content that the value owns.
    LifetimeError,
    /// The input ends inside a record: inside its header, or before its
    /// content does.
    Incomplete(Needed),
}

/// The families into which the failures fall.
#[derive(Clone, Copy, Debug, PartialEq, Eq, Structural)]
pub enum ErrorKind {
    /// A malformed tag or length, a reserved octet, or a value that its
    /// character set does not allow.
    Format,
    /// The input ends inside a record.
    Incomplete,
    /// The decoded tag or class is not the expected one.
    TagMismatch,
    /// A rule on the shape of an encoding is violated.
    Constraint,
    /// A borrowed view was asked of owned content.
    ByLifetime,
}

impl Error {
    /// The family of this failure.
    pub open spec fn spec_kind(self) -> ErrorKind {
        match self {
            Error::InvalidTag => ErrorKind::Format,
            Error::InvalidLength => ErrorKind::Format,
            Error::IndefiniteLengthUnexpected => ErrorKind::Format,
            Error::StringInvalidCharset => ErrorKind::Format,
            Error::ConstructExpected => ErrorKind::Constraint,
            Error::ConstructUnexpected => ErrorKind::Constraint,
            Error::UnexpectedTag { .. } => ErrorKind::TagMismatch,
            Error::UnexpectedClass { .. } => ErrorKind::TagMismatch,
            Error::LifetimeError => ErrorKind::ByLifetime,
            Error::Incomplete(_) => ErrorKind::Incomplete,
        }
    }

    /// The family of this failure.
    #[verifier::when_used_as_spec(spec_kind)]
    pub fn kind(self) -> (k: ErrorKind)
        ensures
            k == self.spec_kind(),
    {
        match self {
            Error::InvalidTag => ErrorKind::Format,
            Error::InvalidLength => ErrorKind::Format,
            Error::IndefiniteLengthUnexpected => ErrorKind::Format,
            Error::StringInvalidCharset => ErrorKind::Format,
            Error::ConstructExpected => ErrorKind::Constraint,
            Error::ConstructUnexpected => ErrorKind::Constraint,
            Error::UnexpectedTag { .. } => ErrorKind::TagMismatch,
            Error::UnexpectedClass { .. } => ErrorKind::TagMismatch,
            Error::LifetimeError => ErrorKind::ByLifetime,
            Error::Incomplete(_) => ErrorKind::Incomplete,
        }
    }
}

/// The failure of a decoder that works on a prefix of its input.
///
/// `Error` is a failure that another decoder might not have, `Failure` one
/// that settles the matter for the input.
#[derive(Clone, Copy, Debug, PartialEq, Eq, Structural)]
pub enum ParseError {
    /// The input ends too early.
    Incomplete(Needed),
    /// The decoder does not accept the input.
    Error(Error),
    /// The input is of the right form and its value is refused.
    Failure(Error),
}

impl ParseError {
    /// The failure without its degree: `Incomplete` becomes
    /// `Error::Incomplete`, the other two give up what they hold.
    pub open spec fn spec_flatten(self) -> Error {
        match self {
            ParseError::Incomplete(n) => Error::Incomplete(n),
            ParseError::Error(e) => e,
            ParseError::Failure(e) => e,
        }
    }

    /// The failure without its degree.
    #[verifier::when_used_as_spec(spec_flatten)]
    pub fn flatten(self) -> (e: Error)
        ensures
            e == self.spec_flatten(),
    {
        match self {
            ParseError::Incomplete(n) => Error::Incomplete(n),
            ParseError::Error(e) => e,
            ParseError::Failure(e) => e,
        }
    }
}

/// The failure of a serializer.
#[derive(Clone, Copy, Debug, PartialEq, Eq, Structural)]
pub enum SerializeError {
    /// The value cannot be written as DER.
    ASN1Error(Error),
}

/// What a decoder returns: the input that is left and the value, or a failure.
pub type ParseResult<'a, T> = Result<(&'a [u8], T), ParseError>;

/// What a serializer returns.
pub type SerializeResult<T> = Result<T, SerializeError>;

} // verus!
