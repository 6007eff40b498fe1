//! SEQUENCE: a constructed record whose content is a run of records.

use crate::any::{lemma_any_canonical, Any, AnyView};
use crate::bytes::append_bytes;
use crate::class::Class;
use crate::error::{Error, ErrorKind, ParseError, ParseResult, SerializeError, SerializeResult};
use crate::header::{lemma_header_roundtrip, spec_tlv_header, Header};
use crate::iterator::{
    collect_ber, collect_der, lemma_ber_decoder_laws, lemma_der_decoder_laws,
    lemma_sequence_of_exhausts, lemma_sequence_of_truncated, lemma_steps_exhaust,
    lemma_steps_truncated, spec_ber_decoder, spec_der_decoder, spec_nth_step, spec_sequence_of,
    BerParser, DerParser, SequenceIterator,
};
use crate::length::Length;
use crate::tag::{Identifier, Tag, TAG_SEQUENCE};
use crate::traits::{
    check_tag, spec_check_tag, spec_to_der, to_der_vec, CheckDerConstraints, FromBer, FromDer,
    Tagged, ToDer, ToStatic, TryFromAny,
};
use std::borrow::Cow;
use vstd::prelude::*;
use vstd::slice::slice_to_vec;
use vstd::std_specs::iter::IteratorSpec;

verus! {

/// The content of a SEQUENCE: the octets between the end of its header and
/// the end that its length states. They are borrowed from the input, or
/// owned.
#[derive(Debug, PartialEq, Eq)]
pub struct Sequence<'a> {
    pub content: Cow<'a, [u8]>,
}

impl<'a> View for Sequence<'a> {
    type V = Seq<u8>;

    open spec fn view(&self) -> Seq<u8> {
        self.content@
    }
}

impl<'a> DeepView for Sequence<'a> {
    type V = Seq<u8>;

    open spec fn deep_view(&self) -> Seq<u8> {
        self.content@
    }
}

impl<'a> Clone for Sequence<'a> {
    /// A copy that borrows what this value borrows and owns a copy of what
    /// this value owns.
    fn clone(&self) -> (r: Self)
        ensures
            r@ == self@,
            r.content is Owned == self.content is Owned,
    {
        let content = match &self.content {
            Cow::Borrowed(b) => Cow::Borrowed(*b),
            Cow::Owned(v) => Cow::Owned(slice_to_vec(v.as_slice())),
        };
        Sequence { content }
    }
}

/// The identifier of every SEQUENCE: universal, constructed, tag number 16.
pub open spec fn spec_sequence_identifier() -> Identifier {
    Identifier { class: Class::Universal, constructed: true, tag: TAG_SEQUENCE }
}

/// The encodings of `items`, one behind the other, or the failure of the
/// first item that has none.
pub open spec fn spec_concat_der<T: ToDer>(items: Seq<T>) -> Result<Seq<u8>, SerializeError>
    decreases items.len(),
{
    if items.len() == 0 {
        Ok(Seq::empty())
    } else {
        match spec_to_der(&items[0]) {
            Err(e) => Err(e),
            Ok(enc) => match spec_concat_der(items.drop_first()) {
                Err(e) => Err(e),
                Ok(rest) => Ok(enc + rest),
            },
        }
    }
}

/// The octets `acc` in front of what `r` holds; a failure stays what it is.
pub open spec fn spec_prepend_bytes(
    acc: Seq<u8>,
    r: Result<Seq<u8>, SerializeError>,
) -> Result<Seq<u8>, SerializeError> {
    match r {
        Ok(b) => Ok(acc + b),
        Err(e) => Err(e),
    }
}

/// Whether `r` holds what `expect` says: the same failure, or values with
/// the expected views.
pub open spec fn spec_collected<T: DeepView>(
    r: Result<Vec<T>, Error>,
    expect: Result<Seq<T::V>, Error>,
) -> bool {
    match r {
        Ok(v) => expect == Ok::<Seq<T::V>, Error>(v.deep_view()),
        Err(e) => expect == Err::<Seq<T::V>, Error>(e),
    }
}

impl<'a> Sequence<'a> {
    /// Whether the content is owned by this value.
    pub open spec fn spec_is_owned(&self) -> bool {
        self.content is Owned
    }

    /// A SEQUENCE with the given content.
    pub fn new(content: Cow<'a, [u8]>) -> (s: Self)
        ensures
            s.content == content,
    {
        Sequence { content }
    }

    /// Gives up the content, borrowed or owned as it was.
    pub fn into_content(self) -> (c: Cow<'a, [u8]>)
        ensures
            c == self.content,
    {
        self.content
    }

    /// The content.
    pub fn as_ref(&self) -> (b: &[u8])
        ensures
            b@ == self@,
    {
        match &self.content {
            Cow::Borrowed(b) => b,
            Cow::Owned(v) => v.as_slice(),
        }
    }

    /// Hands the content to `op` and returns what `op` returns.
    pub fn and_then<U, F>(self, op: F) -> (r: ParseResult<'a, U>) where
        F: FnOnce(Cow<'a, [u8]>) -> ParseResult<'a, U>,

        requires
            call_requires(op, (self.content,)),
        ensures
            call_ensures(op, (self.content,), r),
    {
        op(self.content)
    }

    /// Runs the decoder `f` on the content, which stays with this value, and
    /// returns what `f` returns.
    pub fn parse<F, T>(&'a self, mut f: F) -> (r: ParseResult<'a, T>) where
        F: FnMut(&'a [u8]) -> ParseResult<'a, T>,

        requires
            forall|b: &'a [u8]| b@ == self@ ==> call_requires(f, (b,)),
        ensures
            exists|b: &'a [u8]| b@ == self@ && call_ensures(f, (b,), r),
    {
        let input: &[u8] = self.as_ref();
        f(input)
    }

    /// Runs the decoder `f` on content that is borrowed, and returns what
    /// `f` returns. Content that this value owns would not outlive the call:
    /// on it `f` is not run and the result is the failure `LifetimeError`.
    pub fn parse_ref<F, T>(self, mut f: F) -> (r: ParseResult<'a, T>) where
        F: FnMut(&'a [u8]) -> ParseResult<'a, T>,

        requires
            self.content matches Cow::Borrowed(b) ==> call_requires(f, (b,)),
        ensures
            match self.content {
                Cow::Borrowed(b) => call_ensures(f, (b,), r),
                Cow::Owned(_) => r matches Err(e) && e == ParseError::Failure(Error::LifetimeError),
            },
    {
        match self.content {
            Cow::Borrowed(b) => f(b),
            _ => Err(ParseError::Failure(Error::LifetimeError)),
        }
    }

    /// An iterator over the elements of the content, decoded under BER.
    pub fn ber_iter<T>(&'a self) -> (it: SequenceIterator<'a, T, BerParser>) where T: FromBer<'a>
        ensures
            it.spec_left() == self@,
            !it.spec_failed(),
    {
        SequenceIterator::new(self.as_ref())
    }

    /// An iterator over the elements of the content, decoded under DER.
    pub fn der_iter<T>(&'a self) -> (it: SequenceIterator<'a, T, DerParser>) where T: FromDer<'a>
        ensures
            it.spec_left() == self@,
            !it.spec_failed(),
    {
        SequenceIterator::new(self.as_ref())
    }

    /// All elements of the content, decoded under BER, or the first failure.
    pub fn ber_sequence_of<T>(&'a self) -> (r: Result<Vec<T>, Error>) where T: FromBer<'a>
        ensures
            spec_collected(r, spec_sequence_of(spec_ber_decoder::<T>(), self@)),
    {
        collect_ber(self.as_ref())
    }

    /// All elements of the content, decoded under DER, or the first failure.
    pub fn der_sequence_of<T>(&'a self) -> (r: Result<Vec<T>, Error>) where T: FromDer<'a>
        ensures
            spec_collected(r, spec_sequence_of(spec_der_decoder::<T>(), self@)),
    {
        collect_der(self.as_ref())
    }

    /// All elements of the content, decoded under BER, as values that do
    /// not depend on this SEQUENCE, or the first failure.
    pub fn into_ber_sequence_of<T, U>(self) -> (r: Result<Vec<T>, Error>) where
        for <'b>T: FromBer<'b>,
        T: ToStatic<Owned = T>,

        ensures
            spec_collected(r, spec_sequence_of(spec_ber_decoder::<T>(), self@)),
    {
        match self.content {
            Cow::Borrowed(bytes) => collect_ber(bytes),
            Cow::Owned(data) => {
                match collect_ber::<T>(data.as_slice()) {
                    Err(e) => Err(e),
                    Ok(v1) => Ok(v1.to_static()),
                }
            },
        }
    }

    /// All elements of the content, decoded under DER, as values that do
    /// not depend on this SEQUENCE, or the first failure.
    pub fn into_der_sequence_of<T, U>(self) -> (r: Result<Vec<T>, Error>) where
        for <'b>T: FromDer<'b>,
        T: ToStatic<Owned = T>,

        ensures
            spec_collected(r, spec_sequence_of(spec_der_decoder::<T>(), self@)),
    {
        match self.content {
            Cow::Borrowed(bytes) => collect_der(bytes),
            Cow::Owned(data) => {
                match collect_der::<T>(data.as_slice()) {
                    Err(e) => Err(e),
                    Ok(v1) => Ok(v1.to_static()),
                }
            },
        }
    }

    /// A SEQUENCE whose content is the DER encodings of the items that `it`
    /// gives, one behind the other. The content is owned. The first item
    /// that cannot be written ends the work with its failure.
    pub fn from_iter_to_der<T, IT>(it: IT) -> (r: SerializeResult<Sequence<'a>>) where
        IT: Iterator<Item = T>,
        T: ToDer,
        T: Tagged,

        requires
            it.obeys_prophetic_iter_laws(),
            it.decrease() is Some,
        ensures
            match r {
                Ok(s) => spec_concat_der(it.remaining()) == Ok::<Seq<u8>, SerializeError>(s@)
                    && s.content is Owned,
                Err(e) => spec_concat_der(it.remaining()) == Err::<Seq<u8>, SerializeError>(e),
            },
    {
        let mut iter = it;
        let mut v: Vec<u8> = Vec::new();
        assert(spec_concat_der(it.remaining()) is Ok ==> v@ + spec_concat_der(
            it.remaining(),
        )->Ok_0 =~= spec_concat_der(it.remaining())->Ok_0);
        loop
            invariant
                iter.obeys_prophetic_iter_laws(),
                iter.decrease() is Some,
                spec_concat_der(it.remaining()) == spec_prepend_bytes(
                    v@,
                    spec_concat_der(iter.remaining()),
                ),
            decreases iter.decrease()->0,
        {
            let ghost before = v@;
            match iter.next() {
                None => {
                    assert(before + Seq::<u8>::empty() =~= before);
                    return Ok(Sequence { content: Cow::Owned(v) });
                },
                Some(item) => {
                    match to_der_vec(&item) {
                        Err(e) => {
                            return Err(e);
                        },
                        Ok(item_v) => {
                            append_bytes(&mut v, item_v.as_slice());
                            assert(spec_concat_der(iter.remaining()) matches Ok(tail) ==> before + (
                            item_v@ + tail) =~= (before + item_v@) + tail);
                        },
                    }
                },
            }
        }
    }
}

impl<'a> Tagged for Sequence<'a> {
    const TAG: Tag = TAG_SEQUENCE;
}

/// The tag number of a SEQUENCE is 16.
pub proof fn lemma_sequence_tag()
    ensures
        <Sequence as Tagged>::TAG == TAG_SEQUENCE,
        <Sequence as Tagged>::TAG == 16,
{
}

impl<'a> CheckDerConstraints for Sequence<'a> {
    /// DER has no rule on the shape of a SEQUENCE beyond those on every
    /// record.
    open spec fn spec_check_constraints(any: AnyView) -> Result<(), Error> {
        Ok(())
    }

    fn check_constraints(_any: &Any) -> (r: Result<(), Error>) {
        Ok(())
    }
}

impl<'a> TryFromAny<'a> for Sequence<'a> {
    /// A SEQUENCE is made from a record of the universal class, with tag
    /// number 16, in a constructed encoding: it holds the record's content.
    open spec fn spec_try_from_any(any: AnyView) -> Result<Seq<u8>, Error> {
        match spec_check_tag(any, TAG_SEQUENCE) {
            Err(e) => Err(e),
            Ok(_) => if any.header.constructed {
                Ok(any.content)
            } else {
                Err(Error::ConstructExpected)
            },
        }
    }

    fn try_from_any(any: Any<'a>) -> (r: Result<Sequence<'a>, Error>)
        ensures
            r matches Ok(s) ==> s.content == any.data,
    {
        if let Err(e) = check_tag(&any, TAG_SEQUENCE) {
            return Err(e);
        }
        if let Err(e) = any.header.assert_constructed() {
            return Err(e);
        }
        Ok(Sequence { content: any.into_cow() })
    }
}

impl<'a> ToStatic for Sequence<'a> {
    type Owned = Sequence<'static>;

    fn to_static(&self) -> (r: Sequence<'static>)
        ensures
            spec_is_static_of(r, *self),
    {
        Sequence { content: Cow::Owned(slice_to_vec(self.as_ref())) }
    }
}

impl<'a> ToDer for Sequence<'a> {
    open spec fn spec_der_header(&self) -> Result<Seq<u8>, SerializeError> {
        Ok(spec_tlv_header(spec_sequence_identifier(), self@.len()))
    }

    open spec fn spec_der_content(&self) -> Result<Seq<u8>, SerializeError> {
        Ok(self@)
    }

    fn to_der_len(&self) -> (r: Result<usize, Error>)
        ensures
            r matches Err(e) ==> e == Error::InvalidLength,
    {
        let sz = self.as_ref().len();
        let header = Header::new(Class::Universal, true, TAG_SEQUENCE, Length::Definite(sz));
        header.to_der_len_with_content()
    }

    fn write_der_header(&self, out: &mut Vec<u8>) -> (r: SerializeResult<usize>) {
        let header = Header::new(
            Class::Universal,
            true,
            TAG_SEQUENCE,
            Length::Definite(self.as_ref().len()),
        );
        header.write_der_header(out)
    }

    fn write_der_content(&self, out: &mut Vec<u8>) -> (r: SerializeResult<usize>) {
        Ok(append_bytes(out, self.as_ref()))
    }
}

/// Whether `owned` is what `to_static` gives for `s`: it holds what `s`
/// holds, and owns it.
pub open spec fn spec_is_static_of(owned: Sequence, s: Sequence) -> bool {
    owned@ == s@ && owned.content is Owned
}

/// Letting go of the input twice gives what letting go of it once gives:
/// the same content, owned.
pub proof fn lemma_to_static_idempotent(s: Sequence, once: Sequence, twice: Sequence)
    requires
        spec_is_static_of(once, s),
        spec_is_static_of(twice, once),
    ensures
        twice@ == once@,
        twice.spec_is_owned() == once.spec_is_owned(),
        spec_is_static_of(twice, s),
{
}

/// A SEQUENCE whose content holds exactly the BER encodings `items` of
/// values of type `T`, one behind the other, gives exactly their values:
/// all at once, and one with each call of its iterator, which gives nothing
/// with the call behind the last.
pub proof fn lemma_ber_iter_exhausts<'a, T: FromBer<'a>>(
    items: Seq<Seq<u8>>,
    values: Seq<<T as DeepView>::V>,
)
    requires
        items.len() == values.len(),
        forall|i: int|
            0 <= i < items.len() ==> T::spec_from_ber(#[trigger] items[i]) == Ok::<
                (<T as DeepView>::V, int),
                ParseError,
            >((values[i], items[i].len() as int)),
    ensures
        spec_sequence_of(spec_ber_decoder::<T>(), items.flatten()) == Ok::<
            Seq<<T as DeepView>::V>,
            Error,
        >(values),
        forall|k: nat|
            k < items.len() ==> (#[trigger] spec_nth_step(
                spec_ber_decoder::<T>(),
                items.flatten(),
                false,
                k,
            )).0 == Some(Ok::<<T as DeepView>::V, Error>(values[k as int])),
        spec_nth_step(spec_ber_decoder::<T>(), items.flatten(), false, items.len()).0 is None,
{
    lemma_ber_decoder_laws::<T>();
    lemma_sequence_of_exhausts(spec_ber_decoder::<T>(), items, values);
    lemma_steps_exhaust(spec_ber_decoder::<T>(), items, values);
}

/// The same under DER.
pub proof fn lemma_der_iter_exhausts<'a, T: FromDer<'a>>(
    items: Seq<Seq<u8>>,
    values: Seq<<T as DeepView>::V>,
)
    requires
        items.len() == values.len(),
        forall|i: int|
            0 <= i < items.len() ==> T::spec_from_der(#[trigger] items[i]) == Ok::<
                (<T as DeepView>::V, int),
                ParseError,
            >((values[i], items[i].len() as int)),
    ensures
        spec_sequence_of(spec_der_decoder::<T>(), items.flatten()) == Ok::<
            Seq<<T as DeepView>::V>,
            Error,
        >(values),
        forall|k: nat|
            k < items.len() ==> (#[trigger] spec_nth_step(
                spec_der_decoder::<T>(),
                items.flatten(),
                false,
                k,
            )).0 == Some(Ok::<<T as DeepView>::V, Error>(values[k as int])),
        spec_nth_step(spec_der_decoder::<T>(), items.flatten(), false, items.len()).0 is None,
{
    lemma_der_decoder_laws::<T>();
    lemma_sequence_of_exhausts(spec_der_decoder::<T>(), items, values);
    lemma_steps_exhaust(spec_der_decoder::<T>(), items, values);
}

/// A SEQUENCE whose content ends in an element cut short, behind the BER
/// encodings `items` of whole elements, however many, fails as incomplete:
/// all at once, and at the call of its iterator that comes to the element
/// cut short, after which the iterator gives nothing. The calls before
/// that give the values of the whole elements. The element cut short is the
/// first `m` octets of `whole`, some and not all of the value that `whole`
/// starts with: it may end inside the header or inside the content.
pub proof fn lemma_ber_iter_truncated<'a, T: FromBer<'a>>(items: Seq<Seq<u8>>, whole: Seq<u8>, m: int)
    requires
        forall|i: int|
            0 <= i < items.len() ==> (#[trigger] T::spec_from_ber(items[i])) is Ok
                && T::spec_from_ber(items[i])->Ok_0.1 == items[i].len(),
        T::spec_from_ber(whole) is Ok,
        0 < m < T::spec_from_ber(whole)->Ok_0.1,
    ensures
        spec_sequence_of(spec_ber_decoder::<T>(), items.flatten() + whole.take(m)) matches Err(e)
            && e.spec_kind() == ErrorKind::Incomplete,
        forall|k: nat|
            k < items.len() ==> (#[trigger] spec_nth_step(
                spec_ber_decoder::<T>(),
                items.flatten() + whole.take(m),
                false,
                k,
            )).0 == Some(
                Ok::<<T as DeepView>::V, Error>(T::spec_from_ber(items[k as int])->Ok_0.0),
            ),
        spec_nth_step(
            spec_ber_decoder::<T>(),
            items.flatten() + whole.take(m),
            false,
            items.len(),
        ).0 matches Some(Err(e)) && e.spec_kind() == ErrorKind::Incomplete,
        spec_nth_step(
            spec_ber_decoder::<T>(),
            items.flatten() + whole.take(m),
            false,
            items.len() + 1,
        ).0 is None,
{
    let f = spec_ber_decoder::<T>();
    lemma_ber_decoder_laws::<T>();
    assert forall|i: int| 0 <= i < items.len() implies (#[trigger] f(items[i])) is Ok && f(
        items[i],
    )->Ok_0.1 == items[i].len() by {
        assert(T::spec_from_ber(items[i]) is Ok);
    }
    lemma_sequence_of_truncated(f, items, whole, m);
    lemma_steps_truncated(f, items, whole, m);
}

/// A SEQUENCE whose content ends in an element cut short, behind the DER
/// encodings `items` of whole elements, however many, fails as incomplete:
/// all at once, and at the call of its iterator that comes to the element
/// cut short, after which the iterator gives nothing. The calls before
/// that give the values of the whole elements. The element cut short is the
/// first `m` octets of `whole`, some and not all of the value that `whole`
/// starts with: it may end inside the header or inside the content.
pub proof fn lemma_der_iter_truncated<'a, T: FromDer<'a>>(items: Seq<Seq<u8>>, whole: Seq<u8>, m: int)
    requires
        forall|i: int|
            0 <= i < items.len() ==> (#[trigger] T::spec_from_der(items[i])) is Ok
                && T::spec_from_der(items[i])->Ok_0.1 == items[i].len(),
        T::spec_from_der(whole) is Ok,
        0 < m < T::spec_from_der(whole)->Ok_0.1,
    ensures
        spec_sequence_of(spec_der_decoder::<T>(), items.flatten() + whole.take(m)) matches Err(e)
            && e.spec_kind() == ErrorKind::Incomplete,
        forall|k: nat|
            k < items.len() ==> (#[trigger] spec_nth_step(
                spec_der_decoder::<T>(),
                items.flatten() + whole.take(m),
                false,
                k,
            )).0 == Some(
                Ok::<<T as DeepView>::V, Error>(T::spec_from_der(items[k as int])->Ok_0.0),
            ),
        spec_nth_step(
            spec_der_decoder::<T>(),
            items.flatten() + whole.take(m),
            false,
            items.len(),
        ).0 matches Some(Err(e)) && e.spec_kind() == ErrorKind::Incomplete,
        spec_nth_step(
            spec_der_decoder::<T>(),
            items.flatten() + whole.take(m),
            false,
            items.len() + 1,
        ).0 is None,
{
    let f = spec_der_decoder::<T>();
    lemma_der_decoder_laws::<T>();
    assert forall|i: int| 0 <= i < items.len() implies (#[trigger] f(items[i])) is Ok && f(
        items[i],
    )->Ok_0.1 == items[i].len() by {
        assert(T::spec_from_der(items[i]) is Ok);
    }
    lemma_sequence_of_truncated(f, items, whole, m);
    lemma_steps_truncated(f, items, whole, m);
}

/// Decoding the DER encoding of a SEQUENCE gives the SEQUENCE back, under
/// DER and under BER, whatever follows the encoding, and takes exactly the
/// octets of the encoding.
pub proof fn lemma_sequence_roundtrip(v: Sequence, rest: Seq<u8>)
    requires
        v@.len() <= usize::MAX,
    ensures
        spec_to_der(&v) matches Ok(enc) && Sequence::spec_from_der(enc + rest) == Ok::<
            (Seq<u8>, int),
            ParseError,
        >((v@, enc.len() as int)) && Sequence::spec_from_ber(enc + rest) == Ok::<
            (Seq<u8>, int),
            ParseError,
        >((v@, enc.len() as int)),
{
    let h = Header {
        class: Class::Universal,
        constructed: true,
        tag: TAG_SEQUENCE,
        length: Length::Definite(v@.len() as usize),
    };
    let hdr = spec_tlv_header(spec_sequence_identifier(), v@.len());
    let enc = hdr + v@;
    let s = enc + rest;
    assert(s =~= hdr + (v@ + rest));
    lemma_header_roundtrip(h, v@ + rest, true);
    lemma_header_roundtrip(h, v@ + rest, false);
    assert(s.subrange(hdr.len() as int, (hdr.len() + v@.len()) as int) =~= v@);
}

/// Octets that DER accepts as a SEQUENCE are the DER encoding of that
/// SEQUENCE: decoding under DER and encoding again gives the octets back.
pub proof fn lemma_sequence_canonical(s: Seq<u8>)
    requires
        Sequence::spec_from_der(s) is Ok,
    ensures
        Sequence::spec_from_der(s) matches Ok((v, n)) && spec_tlv_header(
            spec_sequence_identifier(),
            v.len(),
        ) + v == s.subrange(0, n),
{
    lemma_any_canonical(s);
}

} // verus!
