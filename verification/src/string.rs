//! UTF8String, held as a `String`.

use crate::any::{lemma_any_canonical, spec_decode_any, Any, AnyView};
use crate::bytes::{append_bytes, str_from_utf8};
use crate::class::Class;
use crate::error::{Error, ParseError, SerializeError, SerializeResult};
use crate::header::{lemma_header_roundtrip, spec_tlv_header, Header};
use crate::length::Length;
use crate::tag::{Identifier, Tag, TAG_UTF8_STRING};
use crate::traits::{
    check_tag, spec_check_tag, spec_to_der, CheckDerConstraints, FromBer, FromDer, Tagged, ToDer,
    ToStatic, TryFromAny,
};
use vstd::prelude::*;
use vstd::utf8::{
    decode_utf8, decode_utf8_encode_utf8, encode_utf8, encode_utf8_decode_utf8,
    encode_utf8_valid_utf8, valid_utf8,
};

verus! {

/// The identifier of a UTF8String in DER: universal, primitive, tag
/// number 12.
pub open spec fn spec_string_identifier() -> Identifier {
    Identifier { class: Class::Universal, constructed: false, tag: TAG_UTF8_STRING }
}

impl Tagged for String {
    const TAG: Tag = TAG_UTF8_STRING;
}

/// The tag number of a string is that of UTF8String, 12.
pub proof fn lemma_string_tag()
    ensures
        <String as Tagged>::TAG == TAG_UTF8_STRING,
        <String as Tagged>::TAG == 12,
{
}

impl CheckDerConstraints for String {
    /// DER allows a string in a primitive encoding only.
    open spec fn spec_check_constraints(any: AnyView) -> Result<(), Error> {
        if any.header.constructed {
            Err(Error::ConstructUnexpected)
        } else {
            Ok(())
        }
    }

    fn check_constraints(any: &Any) -> (r: Result<(), Error>) {
        any.header.assert_primitive()
    }
}

impl<'a> TryFromAny<'a> for String {
    /// A string is made from a record of the universal class, with tag
    /// number 12, whose content is well-formed UTF-8: it holds the characters
    /// that the content spells.
    open spec fn spec_try_from_any(any: AnyView) -> Result<Seq<char>, Error> {
        match spec_check_tag(any, TAG_UTF8_STRING) {
            Err(e) => Err(e),
            Ok(_) => if valid_utf8(any.content) {
                Ok(decode_utf8(any.content))
            } else {
                Err(Error::StringInvalidCharset)
            },
        }
    }

    fn try_from_any(any: Any<'a>) -> (r: Result<String, Error>) {
        if let Err(e) = check_tag(&any, TAG_UTF8_STRING) {
            return Err(e);
        }
        match str_from_utf8(any.as_bytes()) {
            None => Err(Error::StringInvalidCharset),
            Some(s) => {
                proof {
                    encode_utf8_decode_utf8(s@);
                }
                Ok(s.to_owned())
            },
        }
    }
}

impl ToStatic for String {
    type Owned = String;

    fn to_static(&self) -> (r: String) {
        self.clone()
    }
}

impl ToDer for String {
    open spec fn spec_der_header(&self) -> Result<Seq<u8>, SerializeError> {
        Ok(spec_tlv_header(spec_string_identifier(), encode_utf8(self@).len()))
    }

    open spec fn spec_der_content(&self) -> Result<Seq<u8>, SerializeError> {
        Ok(encode_utf8(self@))
    }

    fn to_der_len(&self) -> (r: Result<usize, Error>)
        ensures
            r matches Err(e) ==> e == Error::InvalidLength,
    {
        let sz = self.as_str().as_bytes().len();
        let header = Header::new(Class::Universal, false, TAG_UTF8_STRING, Length::Definite(sz));
        header.to_der_len_with_content()
    }

    fn write_der_header(&self, out: &mut Vec<u8>) -> (r: SerializeResult<usize>) {
        let header = Header::new(
            Class::Universal,
            false,
            TAG_UTF8_STRING,
            Length::Definite(self.as_str().as_bytes().len()),
        );
        header.write_der_header(out)
    }

    fn write_der_content(&self, out: &mut Vec<u8>) -> (r: SerializeResult<usize>) {
        Ok(append_bytes(out, self.as_str().as_bytes()))
    }
}

/// Decoding the DER encoding of a string gives the string back, under DER
/// and under BER, whatever follows the encoding, and takes exactly the
/// octets of the encoding.
pub proof fn lemma_string_roundtrip(v: String, rest: Seq<u8>)
    requires
        encode_utf8(v@).len() <= usize::MAX,
    ensures
        spec_to_der(&v) matches Ok(enc) && String::spec_from_der(enc + rest) == Ok::<
            (Seq<char>, int),
            ParseError,
        >((v@, enc.len() as int)) && String::spec_from_ber(enc + rest) == Ok::<
            (Seq<char>, int),
            ParseError,
        >((v@, enc.len() as int)),
{
    let content = encode_utf8(v@);
    let h = Header {
        class: Class::Universal,
        constructed: false,
        tag: TAG_UTF8_STRING,
        length: Length::Definite(content.len() as usize),
    };
    let hdr = spec_tlv_header(spec_string_identifier(), content.len());
    let enc = hdr + content;
    let s = enc + rest;
    assert(s =~= hdr + (content + rest));
    lemma_header_roundtrip(h, content + rest, true);
    lemma_header_roundtrip(h, content + rest, false);
    assert(s.subrange(hdr.len() as int, (hdr.len() + content.len()) as int) =~= content);
    encode_utf8_valid_utf8(v@);
    encode_utf8_decode_utf8(v@);
}

/// Octets that DER accepts as a string are the DER encoding of that
/// string: decoding under DER and encoding again gives the octets back.
pub proof fn lemma_string_canonical(s: Seq<u8>)
    requires
        String::spec_from_der(s) is Ok,
    ensures
        String::spec_from_der(s) matches Ok((v, n)) && spec_tlv_header(
            spec_string_identifier(),
            encode_utf8(v).len(),
        ) + encode_utf8(v) == s.subrange(0, n),
{
    lemma_any_canonical(s);
    let (a, n) = spec_decode_any(s, true)->Ok_0;
    decode_utf8_encode_utf8(a.content);
}

} // verus!
