//! A record of any type: its header and its content, not yet decoded.

use crate::bytes::take_bytes;
use crate::class::Class;
use crate::bytes::append_bytes;
use crate::error::{Error, ErrorKind, Needed, ParseError, ParseResult, SerializeError, SerializeResult};
use crate::header::{
    lemma_der_refuses_indefinite, lemma_element_header, lemma_header_canonical,
    lemma_header_end, lemma_header_prefix, lemma_header_roundtrip, lemma_header_take,
    spec_decode_element_header, spec_decode_header, spec_header_cut, spec_tlv_header, Header,
};
use crate::length::Length;
use crate::tag::Tag;
use crate::traits::{spec_parsed, spec_to_der, ToDer, ToStatic};
use std::borrow::Cow;
use vstd::prelude::*;
use vstd::slice::{slice_subrange, slice_to_vec};

verus! {

/// A header and the content that it stands in front of. The content is
/// borrowed from the input, or owned.
#[derive(Debug, PartialEq, Eq)]
pub struct Any<'a> {
    pub header: Header,
    pub data: Cow<'a, [u8]>,
}

/// What an `Any` holds, whoever owns the content.
pub struct AnyView {
    pub header: Header,
    pub content: Seq<u8>,
}

impl<'a> View for Any<'a> {
    type V = AnyView;

    open spec fn view(&self) -> AnyView {
        AnyView { header: self.header, content: self.data@ }
    }
}

impl<'a> DeepView for Any<'a> {
    type V = AnyView;

    open spec fn deep_view(&self) -> AnyView {
        self@
    }
}

impl<'a> Clone for Any<'a> {
    /// A copy that borrows what this value borrows and owns a copy of what
    /// this value owns.
    fn clone(&self) -> (r: Self)
        ensures
            r@ == self@,
            r.data is Owned == self.data is Owned,
    {
        let data = match &self.data {
            Cow::Borrowed(b) => Cow::Borrowed(*b),
            Cow::Owned(v) => Cow::Owned(slice_to_vec(v.as_slice())),
        };
        Any { header: self.header, data }
    }
}

/// An offset moved on by `k`; a failure stays what it is.
pub open spec fn spec_shift(k: int, r: Result<int, ParseError>) -> Result<int, ParseError> {
    match r {
        Ok(x) => Ok(x + k),
        Err(e) => Err(e),
    }
}

/// Where in `s` the end-of-contents marker stands that closes a content of
/// indefinite length which starts at the front of `s`, `depth` contents of
/// indefinite length being open inside it.
///
/// The content is a run of records. A record of definite length is passed
/// over whole. One of indefinite length opens a nested content, and the next
/// marker closes the innermost open one. The marker is the two octets 0, 0
/// where a record would start.
pub open spec fn spec_eoc_offset(s: Seq<u8>, depth: nat) -> Result<int, ParseError>
    decreases s.len(),
{
    if s.len() == 0 {
        Err(ParseError::Incomplete(Needed::Unknown))
    } else if s.len() >= 2 && s[0] == 0 && s[1] == 0 {
        if depth == 0 {
            Ok(0)
        } else {
            spec_shift(2, spec_eoc_offset(s.skip(2), (depth - 1) as nat))
        }
    } else {
        match spec_decode_element_header(s, false) {
            Err(e) => Err(e),
            Ok((h, n)) => {
                proof {
                    lemma_element_header(s, false);
                    lemma_header_end(s, false);
                }
                match h.length {
                    Length::Indefinite => spec_shift(n, spec_eoc_offset(s.skip(n), depth + 1)),
                    Length::Definite(l) => if n + l > s.len() {
                        Err(ParseError::Incomplete(Needed::Size((n + l - s.len()) as usize)))
                    } else {
                        spec_shift(n + l, spec_eoc_offset(s.skip(n + l), depth))
                    },
                }
            },
        }
    }
}

/// The record at the front of `s`, and how many octets it takes. Input that
/// ends inside the header or inside the content is incomplete.
///
/// A content of definite length is the octets behind the header, as many as
/// the header says. A content of indefinite length, which only BER has, runs
/// up to its end-of-contents marker, and the record ends behind the marker.
pub open spec fn spec_decode_any(s: Seq<u8>, der: bool) -> Result<(AnyView, int), ParseError> {
    match spec_decode_element_header(s, der) {
        Err(e) => Err(e),
        Ok((h, n)) => match h.length {
            Length::Definite(l) => if n + l > s.len() {
                Err(ParseError::Incomplete(Needed::Size((n + l - s.len()) as usize)))
            } else {
                Ok((AnyView { header: h, content: s.subrange(n, n + l) }, n + l))
            },
            Length::Indefinite => match spec_eoc_offset(s.skip(n), 0) {
                Err(e) => Err(e),
                Ok(k) => Ok((AnyView { header: h, content: s.subrange(n, n + k) }, n + k + 2)),
            },
        },
    }
}

/// The marker lies in `s`, both of its octets.
pub proof fn lemma_eoc_end(s: Seq<u8>, depth: nat)
    ensures
        spec_eoc_offset(s, depth) matches Ok(k) ==> 0 <= k && k + 2 <= s.len(),
    decreases s.len(),
{
    if s.len() == 0 {
    } else if s.len() >= 2 && s[0] == 0 && s[1] == 0 {
        if depth > 0 {
            lemma_eoc_end(s.skip(2), (depth - 1) as nat);
        }
    } else {
        lemma_element_header(s, false);
        lemma_header_end(s, false);
        if let Ok((h, n)) = spec_decode_element_header(s, false) {
            match h.length {
                Length::Indefinite => {
                    lemma_eoc_end(s.skip(n), depth + 1);
                },
                Length::Definite(l) => {
                    if n + l <= s.len() {
                        lemma_eoc_end(s.skip(n + l), depth);
                    }
                },
            }
        }
    }
}

/// Octets behind the marker do not change where it stands.
pub proof fn lemma_eoc_prefix(s: Seq<u8>, rest: Seq<u8>, depth: nat)
    requires
        spec_eoc_offset(s, depth) is Ok,
    ensures
        spec_eoc_offset(s + rest, depth) == spec_eoc_offset(s, depth),
    decreases s.len(),
{
    let t = s + rest;
    assert(t[0] == s[0]);
    if s.len() >= 2 && s[0] == 0 && s[1] == 0 {
        assert(t[1] == s[1]);
        if depth > 0 {
            assert(t.skip(2) =~= s.skip(2) + rest);
            lemma_eoc_prefix(s.skip(2), rest, (depth - 1) as nat);
        }
    } else {
        lemma_element_header(s, false);
        lemma_element_header(t, false);
        lemma_header_end(s, false);
        lemma_header_prefix(s, rest, false);
        let (h, n) = spec_decode_header(s, false)->Ok_0;
        if s.len() >= 2 {
            assert(t[1] == s[1]);
        }
        assert(!(t.len() >= 2 && t[0] == 0 && t[1] == 0));
        match h.length {
            Length::Indefinite => {
                assert(t.skip(n) =~= s.skip(n) + rest);
                lemma_eoc_prefix(s.skip(n), rest, depth + 1);
            },
            Length::Definite(l) => {
                assert(t.skip(n + l) =~= s.skip(n + l) + rest);
                lemma_eoc_prefix(s.skip(n + l), rest, depth);
            },
        }
    }
}

/// A record takes at least two octets and no more than there are. Its
/// header can stand on the wire, and under DER its length is definite and
/// counts its content.
pub proof fn lemma_any_end(s: Seq<u8>, der: bool)
    ensures
        spec_decode_any(s, der) matches Ok((a, n)) ==> 2 <= n <= s.len() && a.header.spec_valid()
            && (a.header.length matches Length::Definite(l) ==> l == a.content.len()) && (der
            ==> a.header.length is Definite),
{
    lemma_element_header(s, der);
    lemma_header_end(s, der);
    if let Ok((h, n)) = spec_decode_element_header(s, der) {
        if h.length is Indefinite {
            lemma_eoc_end(s.skip(n), 0);
        }
    }
}

/// Octets behind a record do not change what it holds.
pub proof fn lemma_any_prefix(s: Seq<u8>, rest: Seq<u8>, der: bool)
    requires
        spec_decode_any(s, der) is Ok,
    ensures
        spec_decode_any(s + rest, der) == spec_decode_any(s, der),
{
    let t = s + rest;
    lemma_element_header(s, der);
    lemma_element_header(t, der);
    lemma_header_end(s, der);
    lemma_header_prefix(s, rest, der);
    let (h, n) = spec_decode_header(s, der)->Ok_0;
    match h.length {
        Length::Definite(l) => {
            assert(t.subrange(n, n + l) =~= s.subrange(n, n + l));
        },
        Length::Indefinite => {
            assert(t.skip(n) =~= s.skip(n) + rest);
            lemma_eoc_prefix(s.skip(n), rest, 0);
            lemma_eoc_end(s.skip(n), 0);
            let k = spec_eoc_offset(s.skip(n), 0)->Ok_0;
            assert(t.subrange(n, n + k) =~= s.subrange(n, n + k));
        },
    }
}

/// Where BER reads a whole header, DER does not find the input cut short.
proof fn lemma_der_is_not_cut(s: Seq<u8>)
    requires
        spec_decode_header(s, false) is Ok,
    ensures
        spec_header_cut(s, true) is None,
{
    lemma_element_header(s, false);
}

/// The first `m` octets of a content of indefinite length, where they do
/// not reach the end of its end-of-contents marker, are incomplete.
pub proof fn lemma_eoc_cut(s: Seq<u8>, m: int, depth: nat)
    requires
        spec_eoc_offset(s, depth) is Ok,
        0 <= m < spec_eoc_offset(s, depth)->Ok_0 + 2,
    ensures
        spec_eoc_offset(s.take(m), depth) matches Err(e) && e is Incomplete,
    decreases s.len(),
{
    let p = s.take(m);
    lemma_eoc_end(s, depth);
    if m == 0 {
    } else {
        assert(p[0] == s[0]);
        if m >= 2 {
            assert(p[1] == s[1]);
        }
        if s.len() >= 2 && s[0] == 0 && s[1] == 0 {
            if m == 1 {
                lemma_zero_octet_is_cut(p, depth);
            } else {
                assert(p.skip(2) =~= s.skip(2).take(m - 2));
                lemma_eoc_cut(s.skip(2), m - 2, (depth - 1) as nat);
            }
        } else {
            lemma_element_header(s, false);
            lemma_element_header(p, false);
            lemma_header_end(s, false);
            lemma_header_take(s, m, false);
            let (h, n) = spec_decode_header(s, false)->Ok_0;
            if n <= m {
                match h.length {
                    Length::Indefinite => {
                        assert(p.skip(n) =~= s.skip(n).take(m - n));
                        lemma_eoc_cut(s.skip(n), m - n, depth + 1);
                    },
                    Length::Definite(l) => {
                        if n + l <= m {
                            assert(p.skip(n + l) =~= s.skip(n + l).take(m - (n + l)));
                            lemma_eoc_cut(s.skip(n + l), m - (n + l), depth);
                        }
                    },
                }
            }
        }
    }
}

/// A single zero octet is the front of a header, cut short.
proof fn lemma_zero_octet_is_cut(p: Seq<u8>, depth: nat)
    requires
        p.len() == 1,
        p[0] == 0,
    ensures
        spec_eoc_offset(p, depth) matches Err(e) && e is Incomplete,
{
    assert(p.skip(1).len() == 0);
    assert(spec_header_cut(p, false) is Some);
}

/// The first `m` octets of a record, where they are some and not all of it,
/// are incomplete: a record that is cut short, in its header or in its
/// content, is never taken for malformed, nor for a shorter record.
pub proof fn lemma_any_cut(s: Seq<u8>, m: int, der: bool)
    requires
        spec_decode_any(s, der) is Ok,
        0 < m < spec_decode_any(s, der)->Ok_0.1,
    ensures
        spec_decode_any(s.take(m), der) matches Err(e) && e is Incomplete,
{
    let p = s.take(m);
    lemma_any_end(s, der);
    lemma_element_header(s, der);
    lemma_element_header(p, der);
    lemma_header_end(s, der);
    lemma_header_take(s, m, der);
    let (h, n) = spec_decode_header(s, der)->Ok_0;
    if n <= m {
        match h.length {
            Length::Definite(l) => {},
            Length::Indefinite => {
                assert(p.skip(n) =~= s.skip(n).take(m - n));
                lemma_eoc_cut(s.skip(n), m - n, 0);
            },
        }
    }
}

/// A record that BER reads with an indefinite length is refused under DER,
/// as malformed.
pub proof fn lemma_any_der_refuses_indefinite(s: Seq<u8>)
    requires
        spec_decode_any(s, false) matches Ok((a, n)) && a.header.length is Indefinite,
    ensures
        spec_decode_any(s, true) matches Err(ParseError::Error(e)) && e.spec_kind()
            == ErrorKind::Format,
{
    lemma_element_header(s, false);
    lemma_element_header(s, true);
    lemma_header_end(s, false);
    lemma_der_refuses_indefinite(s);
    lemma_der_is_not_cut(s);
}

/// Decoding the DER encoding of a record gives the record back, under DER
/// and under BER, whatever follows the encoding, and takes exactly the
/// octets of the encoding. The header of the record states the length of
/// its content.
pub proof fn lemma_any_roundtrip(a: Any, rest: Seq<u8>)
    requires
        a@.content.len() <= usize::MAX,
        a.header.length == Length::Definite(a@.content.len() as usize),
    ensures
        spec_to_der(&a) matches Ok(enc) && spec_decode_any(enc + rest, true) == Ok::<
            (AnyView, int),
            ParseError,
        >((a@, enc.len() as int)) && spec_decode_any(enc + rest, false) == Ok::<
            (AnyView, int),
            ParseError,
        >((a@, enc.len() as int)),
{
    let content = a@.content;
    let hdr = spec_tlv_header(a.header.spec_identifier(), content.len());
    let enc = hdr + content;
    let s = enc + rest;
    assert(s =~= hdr + (content + rest));
    lemma_header_roundtrip(a.header, content + rest, true);
    lemma_header_roundtrip(a.header, content + rest, false);
    lemma_element_header(s, true);
    lemma_element_header(s, false);
    assert(s.subrange(hdr.len() as int, (hdr.len() + content.len()) as int) =~= content);
}

/// Octets that DER accepts as a record are the DER encoding of that
/// record: DER has one way to write a record.
pub proof fn lemma_any_canonical(s: Seq<u8>)
    requires
        spec_decode_any(s, true) is Ok,
    ensures
        spec_decode_any(s, true) matches Ok((a, n)) && spec_tlv_header(
            a.header.spec_identifier(),
            a.content.len(),
        ) + a.content == s.subrange(0, n),
{
    lemma_element_header(s, true);
    lemma_header_end(s, true);
    lemma_header_canonical(s);
    let (h, k) = spec_decode_header(s, true)->Ok_0;
    let l = h.length->Definite_0;
    assert(s.subrange(0, k) + s.subrange(k, k + l) =~= s.subrange(0, k + l));
}

/// A search that has come `step` octets further in what is left of `full`
/// behind `pos` stands where a search from `pos + step` on stands.
proof fn lemma_eoc_advance(full: Seq<u8>, pos: int, step: int, depth: nat, next: nat)
    requires
        0 <= pos,
        0 <= step,
        pos + step <= full.len(),
        spec_eoc_offset(full.skip(pos), depth) == spec_shift(
            step,
            spec_eoc_offset(full.skip(pos).skip(step), next),
        ),
    ensures
        spec_shift(pos, spec_eoc_offset(full.skip(pos), depth)) == spec_shift(
            pos + step,
            spec_eoc_offset(full.skip(pos + step), next),
        ),
{
    assert(full.skip(pos).skip(step) =~= full.skip(pos + step));
}

/// Finds the end-of-contents marker that closes the content of indefinite
/// length at the front of `bytes`.
fn find_eoc(bytes: &[u8]) -> (r: Result<usize, ParseError>)
    ensures
        match r {
            Ok(k) => spec_eoc_offset(bytes@, 0) == Ok::<int, ParseError>(k as int) && k + 2
                <= bytes@.len(),
            Err(e) => spec_eoc_offset(bytes@, 0) == Err::<int, ParseError>(e),
        },
{
    let mut pos: usize = 0;
    let mut depth: usize = 0;
    proof {
        assert(bytes@.skip(0) =~= bytes@);
    }
    loop
        invariant
            pos <= bytes@.len(),
            depth <= pos,
            spec_eoc_offset(bytes@, 0) == spec_shift(
                pos as int,
                spec_eoc_offset(bytes@.skip(pos as int), depth as nat),
            ),
        decreases bytes@.len() - pos,
    {
        let rest = slice_subrange(bytes, pos, bytes.len());
        let ghost left = bytes@.skip(pos as int);
        proof {
            assert(rest@ == left);
        }
        if rest.len() == 0 {
            return Err(ParseError::Incomplete(Needed::Unknown));
        }
        if rest.len() >= 2 && rest[0] == 0 && rest[1] == 0 {
            if depth == 0 {
                return Ok(pos);
            }
            proof {
                lemma_eoc_advance(bytes@, pos as int, 2, depth as nat, (depth - 1) as nat);
            }
            depth = depth - 1;
            pos = pos + 2;
        } else {
            let decoded = Header::decode_element(rest, false);
            match decoded {
                Err(e) => {
                    return Err(e);
                },
                Ok((h, n)) => {
                    match h.length {
                        Length::Indefinite => {
                            proof {
                                lemma_eoc_advance(
                                    bytes@,
                                    pos as int,
                                    n as int,
                                    depth as nat,
                                    (depth + 1) as nat,
                                );
                            }
                            depth = depth + 1;
                            pos = pos + n;
                        },
                        Length::Definite(l) => {
                            if l > rest.len() - n {
                                return Err(
                                    ParseError::Incomplete(Needed::Size(l - (rest.len() - n))),
                                );
                            }
                            proof {
                                lemma_eoc_advance(
                                    bytes@,
                                    pos as int,
                                    n + l,
                                    depth as nat,
                                    depth as nat,
                                );
                            }
                            pos = pos + n + l;
                        },
                    }
                },
            }
        }
    }
}

/// Reads the record at the front of `bytes`, under DER if `der` and under
/// BER else. The content is borrowed from `bytes`.
pub fn decode_any<'a>(bytes: &'a [u8], der: bool) -> (r: ParseResult<'a, Any<'a>>)
    ensures
        spec_parsed(r, bytes@, spec_decode_any(bytes@, der)),
        r matches Ok((_, a)) ==> a.data is Borrowed,
{
    match Header::decode_element(bytes, der) {
        Err(e) => Err(e),
        Ok((h, n)) => {
            let rest = slice_subrange(bytes, n, bytes.len());
            match h.length {
                Length::Definite(l) => match take_bytes(rest, l) {
                    Err(needed) => Err(ParseError::Incomplete(needed)),
                    Ok((rem, content)) => {
                        proof {
                            assert(content@ =~= bytes@.subrange(n as int, n + l));
                            assert(rem@ =~= bytes@.skip(n + l));
                        }
                        Ok((rem, Any { header: h, data: Cow::Borrowed(content) }))
                    },
                },
                Length::Indefinite => match find_eoc(rest) {
                    Err(e) => Err(e),
                    Ok(k) => {
                        let content = slice_subrange(rest, 0, k);
                        let rem = slice_subrange(rest, k + 2, rest.len());
                        proof {
                            assert(content@ =~= bytes@.subrange(n as int, n + k));
                            assert(rem@ =~= bytes@.skip(n + k + 2));
                        }
                        Ok((rem, Any { header: h, data: Cow::Borrowed(content) }))
                    },
                },
            }
        },
    }
}

impl<'a> Any<'a> {
    /// A record of a header and content that is borrowed.
    pub fn new(header: Header, data: &'a [u8]) -> (a: Any<'a>)
        ensures
            a.header == header,
            a.data == Cow::<'a, [u8]>::Borrowed(data),
            a@ == (AnyView { header, content: data@ }),
    {
        Any { header, data: Cow::Borrowed(data) }
    }

    /// The tag number.
    pub fn tag(&self) -> (t: Tag)
        ensures
            t == self.header.tag,
    {
        self.header.tag
    }

    /// The class.
    pub fn class(&self) -> (c: Class)
        ensures
            c == self.header.class,
    {
        self.header.class
    }

    /// The content.
    pub fn as_bytes(&self) -> (b: &[u8])
        ensures
            b@ == self@.content,
    {
        match &self.data {
            Cow::Borrowed(b) => b,
            Cow::Owned(v) => v.as_slice(),
        }
    }

    /// Gives up the content, borrowed or owned as it was.
    pub fn into_cow(self) -> (c: Cow<'a, [u8]>)
        ensures
            c == self.data,
    {
        self.data
    }
}

impl<'a> ToStatic for Any<'a> {
    type Owned = Any<'static>;

    fn to_static(&self) -> (r: Any<'static>)
        ensures
            r.data is Owned,
    {
        Any { header: self.header, data: Cow::Owned(slice_to_vec(self.as_bytes())) }
    }
}

/// A record is written with the class, the constructed flag and the tag
/// number of its header, and with the length of its content, whatever
/// length its header states.
impl<'a> ToDer for Any<'a> {
    open spec fn spec_der_header(&self) -> Result<Seq<u8>, SerializeError> {
        Ok(spec_tlv_header(self.header.spec_identifier(), self@.content.len()))
    }

    open spec fn spec_der_content(&self) -> Result<Seq<u8>, SerializeError> {
        Ok(self@.content)
    }

    fn to_der_len(&self) -> (r: Result<usize, Error>)
        ensures
            r matches Err(e) ==> e == Error::InvalidLength,
    {
        let header = Header {
            class: self.header.class,
            constructed: self.header.constructed,
            tag: self.header.tag,
            length: Length::Definite(self.as_bytes().len()),
        };
        header.to_der_len_with_content()
    }

    fn write_der_header(&self, out: &mut Vec<u8>) -> (r: SerializeResult<usize>) {
        let header = Header {
            class: self.header.class,
            constructed: self.header.constructed,
            tag: self.header.tag,
            length: Length::Definite(self.as_bytes().len()),
        };
        header.write_der_header(out)
    }

    fn write_der_content(&self, out: &mut Vec<u8>) -> (r: SerializeResult<usize>) {
        Ok(append_bytes(out, self.as_bytes()))
    }
}

} // verus!
