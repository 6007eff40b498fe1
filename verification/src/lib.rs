//! A codec for the ASN.1 encodings BER and DER of ITU-T X.690.
//!
//! Every value on the wire is a tag, a length and a content. This crate
//! decodes such records into typed values without copying the input, and
//! writes typed values back as canonical DER. Each function carries a
//! contract over byte sequences, and the contracts are proved.

pub mod any;
pub mod bytes;
pub mod class;
pub mod error;
pub mod header;
pub mod iterator;
pub mod length;
pub mod sequence;
pub mod string;
pub mod tag;
pub mod traits;

pub use any::Any;
pub use class::Class;
pub use error::{Error, ErrorKind, Needed, ParseError, ParseResult, SerializeError, SerializeResult};
pub use header::Header;
pub use iterator::{BerParser, DerParser, SequenceIterator};
pub use length::Length;
pub use sequence::Sequence;
pub use tag::{Tag, TAG_SEQUENCE, TAG_UTF8_STRING};
pub use traits::{
    to_der_vec, write_der, CheckDerConstraints, FromBer, FromDer, Tagged, ToDer, ToStatic,
    TryFromAny,
};
