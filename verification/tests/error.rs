use asn1_rs::{Class, Error, ErrorKind, Needed, ParseError};

#[test]
fn kinds_of_failures() {
    assert_eq!(Error::InvalidTag.kind(), ErrorKind::Format);
    assert_eq!(Error::InvalidLength.kind(), ErrorKind::Format);
    assert_eq!(Error::IndefiniteLengthUnexpected.kind(), ErrorKind::Format);
    assert_eq!(Error::StringInvalidCharset.kind(), ErrorKind::Format);
    assert_eq!(Error::ConstructExpected.kind(), ErrorKind::Constraint);
    assert_eq!(Error::ConstructUnexpected.kind(), ErrorKind::Constraint);
    assert_eq!(Error::UnexpectedTag { expected: 1, actual: 2 }.kind(), ErrorKind::TagMismatch);
    assert_eq!(
        Error::UnexpectedClass { expected: Class::Universal, actual: Class::Private }.kind(),
        ErrorKind::TagMismatch
    );
    assert_eq!(Error::LifetimeError.kind(), ErrorKind::ByLifetime);
    assert_eq!(Error::Incomplete(Needed::Unknown).kind(), ErrorKind::Incomplete);
}

#[test]
fn failures_without_degree() {
    assert_eq!(
        ParseError::Incomplete(Needed::Size(4)).flatten(),
        Error::Incomplete(Needed::Size(4))
    );
    assert_eq!(ParseError::Error(Error::InvalidTag).flatten(), Error::InvalidTag);
    assert_eq!(ParseError::Failure(Error::LifetimeError).flatten(), Error::LifetimeError);
}
