//! The header of a record: identifier octets, then length octets.

use crate::class::Class;
use crate::error::{
    Error, ErrorKind, Needed, ParseError, ParseResult, SerializeError, SerializeResult,
};
use crate::length::{
    decode_length, lemma_encode_length_len, lemma_length_canonical, lemma_length_cut_fails,
    lemma_length_end, lemma_length_prefix, lemma_length_roundtrip, lemma_length_take, length_cut,
    spec_decode_length, spec_encode_length, spec_length_cut, Length,
};
use crate::tag::{
    decode_identifier, identifier_cut, identifier_len, lemma_identifier_canonical,
    lemma_identifier_cut_fails, lemma_identifier_end, lemma_identifier_prefix,
    lemma_identifier_roundtrip, lemma_identifier_take, lemma_tag_digits_enc_len,
    spec_decode_identifier, spec_encode_identifier, spec_identifier_cut, write_identifier,
    Identifier, Tag,
};
use crate::traits::spec_parsed;
use vstd::prelude::*;
use vstd::slice::slice_subrange;

verus! {

/// What stands in front of every content: class, constructed flag, tag
/// number and length.
#[derive(Clone, Copy, Debug, PartialEq, Eq, Structural)]
pub struct Header {
    pub class: Class,
    pub constructed: bool,
    pub tag: Tag,
    pub length: Length,
}

impl View for Header {
    type V = Header;

    open spec fn view(&self) -> Header {
        *self
    }
}

impl DeepView for Header {
    type V = Header;

    open spec fn deep_view(&self) -> Header {
        *self
    }
}

/// The header at the front of `s`, and how many octets it takes.
///
/// Under DER (`der`) only canonical octets are accepted. An indefinite
/// length in a primitive encoding is refused under BER too.
pub open spec fn spec_decode_header(s: Seq<u8>, der: bool) -> Result<(Header, int), Error> {
    match spec_decode_identifier(s, der) {
        Err(e) => Err(e),
        Ok((id, n)) => match spec_decode_length(s.skip(n), der) {
            Err(e) => Err(e),
            Ok((length, m)) => if !id.constructed && length is Indefinite {
                Err(Error::IndefiniteLengthUnexpected)
            } else {
                Ok(
                    (
                        Header { class: id.class, constructed: id.constructed, tag: id.tag, length },
                        n + m,
                    ),
                )
            },
        },
    }
}

/// The canonical octets in front of a content of `len` octets: those of the
/// identifier, then those of the length.
pub open spec fn spec_tlv_header(id: Identifier, len: nat) -> Seq<u8> {
    spec_encode_identifier(id) + spec_encode_length(len)
}

/// The canonical octets of a header. A header with an indefinite length has
/// none.
pub open spec fn spec_encode_header(h: Header) -> Result<Seq<u8>, Error> {
    match h.length {
        Length::Definite(n) => Ok(spec_tlv_header(h.spec_identifier(), n as nat)),
        Length::Indefinite => Err(Error::IndefiniteLengthUnexpected),
    }
}

/// Whether `s` ends inside a header, and how many octets are missing at
/// least: one where `s` ends inside the identifier octets or in front of
/// the length octets, else as many as the long form of the length announces
/// and `s` does not have.
pub open spec fn spec_header_cut(s: Seq<u8>, der: bool) -> Option<Needed> {
    if spec_identifier_cut(s) {
        Some(Needed::Size(1))
    } else {
        match spec_decode_identifier(s, der) {
            Ok((id, n)) => spec_length_cut(s.skip(n)),
            Err(_) => None,
        }
    }
}

/// The header of the element at the front of `s`, and how many octets it
/// takes. Input that ends inside the header is incomplete; a header that
/// is whole and malformed is an `Error`.
pub open spec fn spec_decode_element_header(s: Seq<u8>, der: bool) -> Result<
    (Header, int),
    ParseError,
> {
    match spec_header_cut(s, der) {
        Some(needed) => Err(ParseError::Incomplete(needed)),
        None => match spec_decode_header(s, der) {
            Ok(x) => Ok(x),
            Err(e) => Err(ParseError::Error(e)),
        },
    }
}

/// A header that is cut short is no header, and the header of an element is
/// the header that the header codec reads.
pub proof fn lemma_element_header(s: Seq<u8>, der: bool)
    ensures
        spec_header_cut(s, der) is Some ==> spec_decode_header(s, der) is Err,
        spec_decode_header(s, der) matches Ok(x) ==> spec_decode_element_header(s, der) == Ok::<
            (Header, int),
            ParseError,
        >(x),
        spec_decode_element_header(s, der) matches Ok(x) ==> spec_decode_header(s, der) == Ok::<
            (Header, int),
            Error,
        >(x),
{
    if spec_identifier_cut(s) {
        lemma_identifier_cut_fails(s, der);
    } else if let Ok((id, n)) = spec_decode_identifier(s, der) {
        if spec_length_cut(s.skip(n)) is Some {
            lemma_length_cut_fails(s.skip(n), der);
        }
    }
}

/// The first `m` octets of `s` hold the header of `s` where they hold all of
/// it, and are cut short where they hold some of it.
pub proof fn lemma_header_take(s: Seq<u8>, m: int, der: bool)
    requires
        spec_decode_header(s, der) is Ok,
        0 < m <= s.len(),
    ensures
        spec_decode_header(s, der)->Ok_0.1 <= m ==> spec_decode_header(s.take(m), der)
            == spec_decode_header(s, der),
        m < spec_decode_header(s, der)->Ok_0.1 ==> spec_header_cut(s.take(m), der) is Some,
{
    let p = s.take(m);
    lemma_identifier_end(s, der);
    lemma_identifier_take(s, m, der);
    let (id, a) = spec_decode_identifier(s, der)->Ok_0;
    if a <= m {
        lemma_length_end(s.skip(a), der);
        assert(p.skip(a) =~= s.skip(a).take(m - a));
        lemma_length_take(s.skip(a), m - a, der);
    }
}

/// What a decoder of headers gives on `s`: a failure of the header is an
/// `Error`.
pub open spec fn spec_parse_header(s: Seq<u8>, der: bool) -> Result<(Header, int), ParseError> {
    match spec_decode_header(s, der) {
        Ok(x) => Ok(x),
        Err(e) => Err(ParseError::Error(e)),
    }
}

/// Octets that BER reads as a header with an indefinite length are refused
/// under DER, as malformed.
pub proof fn lemma_der_refuses_indefinite(s: Seq<u8>)
    requires
        spec_decode_header(s, false) matches Ok((h, n)) && h.length is Indefinite,
    ensures
        spec_decode_header(s, true) matches Err(e) && e.spec_kind() == ErrorKind::Format,
{
    lemma_identifier_end(s, false);
}

/// A header takes at least two octets and no more than there are, and a
/// primitive one has a definite length.
pub proof fn lemma_header_end(s: Seq<u8>, der: bool)
    ensures
        spec_decode_header(s, der) matches Ok((h, n)) ==> 2 <= n <= s.len() && h.spec_valid() && (
        der ==> h.length is Definite),
{
    lemma_identifier_end(s, der);
    if let Ok((id, n)) = spec_decode_identifier(s, der) {
        lemma_length_end(s.skip(n), der);
    }
}

/// Octets behind a header do not change what it says.
pub proof fn lemma_header_prefix(s: Seq<u8>, rest: Seq<u8>, der: bool)
    requires
        spec_decode_header(s, der) is Ok,
    ensures
        spec_decode_header(s + rest, der) == spec_decode_header(s, der),
{
    lemma_identifier_prefix(s, rest, der);
    lemma_identifier_end(s, der);
    let n = spec_decode_identifier(s, der)->Ok_0.1;
    assert((s + rest).skip(n) =~= s.skip(n) + rest);
    lemma_length_prefix(s.skip(n), rest, der);
}

/// The canonical octets of a header say that header, under BER and under
/// DER, whatever follows them.
pub proof fn lemma_header_roundtrip(h: Header, rest: Seq<u8>, der: bool)
    requires
        h.length is Definite,
    ensures
        spec_encode_header(h) matches Ok(enc) && spec_decode_header(enc + rest, der) == Ok::<
            (Header, int),
            Error,
        >((h, enc.len() as int)),
{
    let id = h.spec_identifier();
    let n = h.length->Definite_0;
    let a = spec_encode_identifier(id);
    let b = spec_encode_length(n as nat);
    let s = (a + b) + rest;
    assert(s =~= a + (b + rest));
    lemma_identifier_roundtrip(id, b + rest, der);
    assert(s.skip(a.len() as int) =~= b + rest);
    lemma_length_roundtrip(n, rest, der);
}

/// Octets that DER accepts as a header are the canonical octets of that
/// header: DER has one way to write a header.
pub proof fn lemma_header_canonical(s: Seq<u8>)
    requires
        spec_decode_header(s, true) is Ok,
    ensures
        spec_decode_header(s, true) matches Ok((h, n)) && spec_encode_header(h) == Ok::<
            Seq<u8>,
            Error,
        >(s.subrange(0, n)),
{
    lemma_header_end(s, true);
    lemma_identifier_end(s, true);
    lemma_identifier_canonical(s);
    let (id, a) = spec_decode_identifier(s, true)->Ok_0;
    lemma_length_end(s.skip(a), true);
    lemma_length_canonical(s.skip(a));
    let (l, b) = spec_decode_length(s.skip(a), true)->Ok_0;
    assert(s.subrange(0, a) + s.skip(a).subrange(0, b) =~= s.subrange(0, a + b));
}

/// The canonical octets of a header are at least two and at most fifteen.
pub proof fn lemma_encode_header_len(h: Header)
    ensures
        spec_encode_header(h) matches Ok(enc) ==> 2 <= enc.len() <= 15,
{
    if let Length::Definite(n) = h.length {
        lemma_encode_length_len(n as nat);
        lemma_tag_digits_enc_len(h.tag as nat, true);
    }
}

impl Header {
    /// Whether the header can stand on the wire: a primitive encoding has a
    /// definite length.
    pub open spec fn spec_valid(self) -> bool {
        self.constructed || self.length is Definite
    }

    /// What the identifier octets of this header say.
    pub open spec fn spec_identifier(self) -> Identifier {
        Identifier { class: self.class, constructed: self.constructed, tag: self.tag }
    }

    /// A header from its four parts. A primitive encoding takes a definite
    /// length.
    pub fn new(class: Class, constructed: bool, tag: Tag, length: Length) -> (h: Header)
        requires
            constructed || length is Definite,
        ensures
            h == (Header { class, constructed, tag, length }),
            h.spec_valid(),
    {
        Header { class, constructed, tag, length }
    }

    /// What the identifier octets of this header say.
    pub fn identifier(&self) -> (id: Identifier)
        ensures
            id == self.spec_identifier(),
    {
        Identifier { class: self.class, constructed: self.constructed, tag: self.tag }
    }

    /// Whether the content is made of nested records.
    pub fn is_constructed(&self) -> (b: bool)
        ensures
            b == self.constructed,
    {
        self.constructed
    }

    /// Whether the content is raw data.
    pub fn is_primitive(&self) -> (b: bool)
        ensures
            b == !self.constructed,
    {
        !self.constructed
    }

    /// Succeeds on a constructed encoding.
    pub fn assert_constructed(&self) -> (r: Result<(), Error>)
        ensures
            self.constructed ==> r == Ok::<(), Error>(()),
            !self.constructed ==> r == Err::<(), Error>(Error::ConstructExpected),
    {
        if self.constructed {
            Ok(())
        } else {
            Err(Error::ConstructExpected)
        }
    }

    /// Succeeds on a primitive encoding.
    pub fn assert_primitive(&self) -> (r: Result<(), Error>)
        ensures
            !self.constructed ==> r == Ok::<(), Error>(()),
            self.constructed ==> r == Err::<(), Error>(Error::ConstructUnexpected),
    {
        if self.constructed {
            Err(Error::ConstructUnexpected)
        } else {
            Ok(())
        }
    }

    /// Reads the header at the front of `bytes`, under DER if `der` and
    /// under BER else: the header, and how many octets it takes.
    pub fn decode(bytes: &[u8], der: bool) -> (r: Result<(Header, usize), Error>)
        ensures
            match r {
                Ok((h, n)) => spec_decode_header(bytes@, der) == Ok::<(Header, int), Error>(
                    (h, n as int),
                ) && 2 <= n <= bytes@.len() && h.spec_valid() && (der ==> h.length is Definite),
                Err(e) => spec_decode_header(bytes@, der) == Err::<(Header, int), Error>(e),
            },
    {
        proof {
            lemma_header_end(bytes@, der);
        }
        match decode_identifier(bytes, der) {
            Err(e) => Err(e),
            Ok((id, n)) => {
                let rest = slice_subrange(bytes, n, bytes.len());
                match decode_length(rest, der) {
                    Err(e) => Err(e),
                    Ok((length, m)) => {
                        if !id.constructed && !length.is_definite() {
                            Err(Error::IndefiniteLengthUnexpected)
                        } else {
                            Ok(
                                (
                                    Header {
                                        class: id.class,
                                        constructed: id.constructed,
                                        tag: id.tag,
                                        length,
                                    },
                                    n + m,
                                ),
                            )
                        }
                    },
                }
            },
        }
    }

    /// Reads the header at the front of `bytes` under BER.
    pub fn from_ber<'a>(bytes: &'a [u8]) -> (r: ParseResult<'a, Header>)
        ensures
            spec_parsed(r, bytes@, spec_parse_header(bytes@, false)),
    {
        match Header::decode(bytes, false) {
            Err(e) => Err(ParseError::Error(e)),
            Ok((h, n)) => Ok((slice_subrange(bytes, n, bytes.len()), h)),
        }
    }

    /// Reads the header at the front of `bytes` under DER.
    pub fn from_der<'a>(bytes: &'a [u8]) -> (r: ParseResult<'a, Header>)
        ensures
            spec_parsed(r, bytes@, spec_parse_header(bytes@, true)),
    {
        match Header::decode(bytes, true) {
            Err(e) => Err(ParseError::Error(e)),
            Ok((h, n)) => Ok((slice_subrange(bytes, n, bytes.len()), h)),
        }
    }

    /// Whether `bytes` ends inside a header, and how many octets are missing
    /// at least.
    pub fn cut(bytes: &[u8], der: bool) -> (r: Option<Needed>)
        ensures
            r == spec_header_cut(bytes@, der),
    {
        if identifier_cut(bytes) {
            return Some(Needed::Size(1));
        }
        match decode_identifier(bytes, der) {
            Err(_) => None,
            Ok((_, n)) => length_cut(slice_subrange(bytes, n, bytes.len())),
        }
    }

    /// Reads the header of the element at the front of `bytes`, under DER if
    /// `der` and under BER else. Input that ends inside the header is
    /// incomplete; a header that is whole and malformed is an `Error`.
    pub fn decode_element(bytes: &[u8], der: bool) -> (r: Result<(Header, usize), ParseError>)
        ensures
            match r {
                Ok((h, n)) => spec_decode_element_header(bytes@, der) == Ok::<
                    (Header, int),
                    ParseError,
                >((h, n as int)) && 2 <= n <= bytes@.len() && h.spec_valid() && (der
                    ==> h.length is Definite),
                Err(e) => spec_decode_element_header(bytes@, der) == Err::<
                    (Header, int),
                    ParseError,
                >(e),
            },
    {
        proof {
            lemma_element_header(bytes@, der);
        }
        match Header::decode(bytes, der) {
            Ok(x) => Ok(x),
            Err(e) => match Header::cut(bytes, der) {
                Some(needed) => Err(ParseError::Incomplete(needed)),
                None => Err(ParseError::Error(e)),
            },
        }
    }

    /// How many octets the canonical form of this header takes.
    pub fn to_der_len(&self) -> (r: Result<usize, Error>)
        ensures
            match r {
                Ok(k) => spec_encode_header(*self) matches Ok(enc) && k == enc.len() && 2 <= k
                    <= 15,
                Err(e) => spec_encode_header(*self) == Err::<Seq<u8>, Error>(e),
            },
    {
        match self.length.to_der_len() {
            Err(e) => Err(e),
            Ok(m) => Ok(identifier_len(&self.identifier()) + m),
        }
    }

    /// How many octets this header and a content of the length that it
    /// states take together. Fails where the length is indefinite, and with
    /// `InvalidLength` where `usize` cannot hold the sum.
    pub fn to_der_len_with_content(&self) -> (r: Result<usize, Error>)
        ensures
            match r {
                Ok(k) => spec_encode_header(*self) matches Ok(enc) && self.length matches Length::Definite(
                    n,
                ) && k == enc.len() + n,
                Err(e) => match self.length {
                    Length::Indefinite => e == Error::IndefiniteLengthUnexpected,
                    Length::Definite(n) => e == Error::InvalidLength && spec_encode_header(
                        *self,
                    )->Ok_0.len() + n > usize::MAX,
                },
            },
    {
        match self.length {
            Length::Indefinite => Err(Error::IndefiniteLengthUnexpected),
            Length::Definite(n) => match self.to_der_len() {
                Err(e) => Err(e),
                Ok(k) => match n.checked_add(k) {
                    Some(total) => Ok(total),
                    None => Err(Error::InvalidLength),
                },
            },
        }
    }

    /// Appends the canonical octets of this header to `out` and returns how
    /// many they are. Writes nothing where the length is indefinite.
    pub fn write_der_header(&self, out: &mut Vec<u8>) -> (r: SerializeResult<usize>)
        ensures
            match r {
                Ok(k) => spec_encode_header(*self) matches Ok(enc) && k == enc.len() && 2 <= k <= 15
                    && final(out)@ == old(out)@ + enc,
                Err(e) => spec_encode_header(*self) matches Err(f) && e
                    == SerializeError::ASN1Error(f) && final(out)@ == old(out)@,
            },
    {
        if !self.length.is_definite() {
            return Err(SerializeError::ASN1Error(Error::IndefiniteLengthUnexpected));
        }
        let n = write_identifier(&self.identifier(), out);
        match self.length.write_der(out) {
            Err(e) => Err(e),
            Ok(m) => {
                proof {
                    lemma_encode_header_len(*self);
                    assert(final(out)@ =~= old(out)@ + spec_encode_header(*self)->Ok_0);
                }
                Ok(n + m)
            },
        }
    }
}

} // verus!
