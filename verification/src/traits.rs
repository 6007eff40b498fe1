//! What a type states of itself to be decoded and encoded by this crate.
//!
//! A type names its tag (`Tagged`), says how it is made from a record
//! (`TryFromAny`), which records DER refuses for it
//! (`CheckDerConstraints`), how it is written (`ToDer`) and how it lets go
//! of the input (`ToStatic`). From the first three this crate derives the
//! two decoders, `FromBer` and `FromDer`.

use crate::any::{
    decode_any, lemma_any_cut, lemma_any_end, lemma_any_prefix, spec_decode_any, Any, AnyView,
};
use crate::class::Class;
use crate::error::{Error, ParseError, ParseResult, SerializeError, SerializeResult};
use crate::tag::Tag;
use vstd::prelude::*;

verus! {

/// Whether the result `r` of a decoder on `input` is what `expect` says: the
/// same failure, or a value with the expected view and what is left of the
/// input behind the octets that the value took.
pub open spec fn spec_parsed<T: DeepView>(
    r: Result<(&[u8], T), ParseError>,
    input: Seq<u8>,
    expect: Result<(T::V, int), ParseError>,
) -> bool {
    match r {
        Ok((rem, v)) => expect matches Ok((m, n)) && m == v.deep_view() && 0 <= n <= input.len()
            && rem@ == input.skip(n),
        Err(e) => expect == Err::<(T::V, int), ParseError>(e),
    }
}

/// Whether the result `r` of a writer that found `before` in its sink and
/// left `after` is what `expect` says: the same failure and a sink left as
/// it was, or the expected octets appended and counted.
pub open spec fn spec_written(
    r: Result<usize, SerializeError>,
    before: Seq<u8>,
    after: Seq<u8>,
    expect: Result<Seq<u8>, SerializeError>,
) -> bool {
    match r {
        Ok(k) => expect matches Ok(enc) && k == enc.len() && after == before + enc,
        Err(e) => expect == Err::<Seq<u8>, SerializeError>(e) && after == before,
    }
}

/// What is expected of a header for a universal type with the tag number
/// `tag`: the class first, the number second.
pub open spec fn spec_check_tag(any: AnyView, tag: Tag) -> Result<(), Error> {
    if any.header.class != Class::Universal {
        Err(Error::UnexpectedClass { expected: Class::Universal, actual: any.header.class })
    } else if any.header.tag != tag {
        Err(Error::UnexpectedTag { expected: tag, actual: any.header.tag })
    } else {
        Ok(())
    }
}

/// Succeeds on a record of the universal class with the tag number `tag`.
pub fn check_tag(any: &Any, tag: Tag) -> (r: Result<(), Error>)
    ensures
        r == spec_check_tag(any@, tag),
{
    if any.header.class != Class::Universal {
        Err(Error::UnexpectedClass { expected: Class::Universal, actual: any.header.class })
    } else if any.header.tag != tag {
        Err(Error::UnexpectedTag { expected: tag, actual: any.header.tag })
    } else {
        Ok(())
    }
}

/// A type with a tag number of its own, in the universal class.
pub trait Tagged {
    const TAG: Tag;
}

/// The rules of DER on the shape of a type's records.
pub trait CheckDerConstraints {
    /// `Ok` for a record that DER allows for this type.
    spec fn spec_check_constraints(any: AnyView) -> Result<(), Error>;

    fn check_constraints(any: &Any) -> (r: Result<(), Error>)
        ensures
            r == Self::spec_check_constraints(any@),
    ;
}

/// A type that is made from a record.
pub trait TryFromAny<'a>: Sized + DeepView {
    /// The view of the value that a record gives, or the reason why it gives
    /// none.
    spec fn spec_try_from_any(any: AnyView) -> Result<<Self as DeepView>::V, Error>;

    fn try_from_any(any: Any<'a>) -> (r: Result<Self, Error>)
        ensures
            match r {
                Ok(v) => Self::spec_try_from_any(any@) == Ok::<<Self as DeepView>::V, Error>(
                    v.deep_view(),
                ),
                Err(e) => Self::spec_try_from_any(any@) == Err::<<Self as DeepView>::V, Error>(e),
            },
    ;
}

/// A type that is decoded from the front of a byte slice under BER.
pub trait FromBer<'a>: Sized + DeepView {
    /// The view of the value at the front of `bytes` and the number of
    /// octets that it takes, or the reason why there is none.
    spec fn spec_from_ber(bytes: Seq<u8>) -> Result<(<Self as DeepView>::V, int), ParseError>;

    /// A value takes at least one octet and no more than there are.
    proof fn lemma_from_ber_end(bytes: Seq<u8>)
        ensures
            Self::spec_from_ber(bytes) matches Ok((v, n)) ==> 0 < n <= bytes.len(),
    ;

    /// Octets behind a value do not change it.
    proof fn lemma_from_ber_prefix(bytes: Seq<u8>, rest: Seq<u8>)
        requires
            Self::spec_from_ber(bytes) is Ok,
        ensures
            Self::spec_from_ber(bytes + rest) == Self::spec_from_ber(bytes),
    ;

    /// The first `m` octets of a value, where they are some and not all of
    /// it, are incomplete.
    proof fn lemma_from_ber_cut(bytes: Seq<u8>, m: int)
        requires
            Self::spec_from_ber(bytes) is Ok,
            0 < m < Self::spec_from_ber(bytes)->Ok_0.1,
        ensures
            Self::spec_from_ber(bytes.take(m)) matches Err(e) && e is Incomplete,
    ;

    fn from_ber(bytes: &'a [u8]) -> (r: ParseResult<'a, Self>)
        ensures
            spec_parsed(r, bytes@, Self::spec_from_ber(bytes@)),
    ;
}

/// A type that is decoded from the front of a byte slice under DER.
pub trait FromDer<'a>: Sized + DeepView {
    /// The view of the value at the front of `bytes` and the number of
    /// octets that it takes, or the reason why there is none.
    spec fn spec_from_der(bytes: Seq<u8>) -> Result<(<Self as DeepView>::V, int), ParseError>;

    /// A value takes at least one octet and no more than there are.
    proof fn lemma_from_der_end(bytes: Seq<u8>)
        ensures
            Self::spec_from_der(bytes) matches Ok((v, n)) ==> 0 < n <= bytes.len(),
    ;

    /// Octets behind a value do not change it.
    proof fn lemma_from_der_prefix(bytes: Seq<u8>, rest: Seq<u8>)
        requires
            Self::spec_from_der(bytes) is Ok,
        ensures
            Self::spec_from_der(bytes + rest) == Self::spec_from_der(bytes),
    ;

    /// The first `m` octets of a value, where they are some and not all of
    /// it, are incomplete.
    proof fn lemma_from_der_cut(bytes: Seq<u8>, m: int)
        requires
            Self::spec_from_der(bytes) is Ok,
            0 < m < Self::spec_from_der(bytes)->Ok_0.1,
        ensures
            Self::spec_from_der(bytes.take(m)) matches Err(e) && e is Incomplete,
    ;

    fn from_der(bytes: &'a [u8]) -> (r: ParseResult<'a, Self>)
        ensures
            spec_parsed(r, bytes@, Self::spec_from_der(bytes@)),
    ;
}

/// Under BER a value is the record at the front of the input, made into the
/// type. A record that the type refuses is a `Failure`.
impl<'a, T: TryFromAny<'a>> FromBer<'a> for T {
    open spec fn spec_from_ber(bytes: Seq<u8>) -> Result<(<T as DeepView>::V, int), ParseError> {
        match spec_decode_any(bytes, false) {
            Err(e) => Err(e),
            Ok((any, n)) => match T::spec_try_from_any(any) {
                Err(e) => Err(ParseError::Failure(e)),
                Ok(v) => Ok((v, n)),
            },
        }
    }

    proof fn lemma_from_ber_end(bytes: Seq<u8>) {
        lemma_any_end(bytes, false);
    }

    proof fn lemma_from_ber_prefix(bytes: Seq<u8>, rest: Seq<u8>) {
        lemma_any_prefix(bytes, rest, false);
    }

    proof fn lemma_from_ber_cut(bytes: Seq<u8>, m: int) {
        lemma_any_cut(bytes, m, false);
    }

    fn from_ber(bytes: &'a [u8]) -> (r: ParseResult<'a, T>) {
        match decode_any(bytes, false) {
            Err(e) => Err(e),
            Ok((rem, any)) => match T::try_from_any(any) {
                Err(e) => Err(ParseError::Failure(e)),
                Ok(v) => Ok((rem, v)),
            },
        }
    }
}

/// Under DER a value is the record at the front of the input, in canonical
/// form, held against the type's tag, then against the rules of DER for the
/// type, and made into the type. A record that fails one of the three is a
/// `Failure`.
impl<'a, T: TryFromAny<'a> + CheckDerConstraints + Tagged> FromDer<'a> for T {
    open spec fn spec_from_der(bytes: Seq<u8>) -> Result<(<T as DeepView>::V, int), ParseError> {
        match spec_decode_any(bytes, true) {
            Err(e) => Err(e),
            Ok((any, n)) => match spec_check_tag(any, T::TAG) {
                Err(e) => Err(ParseError::Failure(e)),
                Ok(_) => match T::spec_check_constraints(any) {
                    Err(e) => Err(ParseError::Failure(e)),
                    Ok(_) => match T::spec_try_from_any(any) {
                        Err(e) => Err(ParseError::Failure(e)),
                        Ok(v) => Ok((v, n)),
                    },
                },
            },
        }
    }

    proof fn lemma_from_der_end(bytes: Seq<u8>) {
        lemma_any_end(bytes, true);
    }

    proof fn lemma_from_der_prefix(bytes: Seq<u8>, rest: Seq<u8>) {
        lemma_any_prefix(bytes, rest, true);
    }

    proof fn lemma_from_der_cut(bytes: Seq<u8>, m: int) {
        lemma_any_cut(bytes, m, true);
    }

    fn from_der(bytes: &'a [u8]) -> (r: ParseResult<'a, T>) {
        match decode_any(bytes, true) {
            Err(e) => Err(e),
            Ok((rem, any)) => {
                if let Err(e) = check_tag(&any, T::TAG) {
                    return Err(ParseError::Failure(e));
                }
                if let Err(e) = T::check_constraints(&any) {
                    return Err(ParseError::Failure(e));
                }
                match T::try_from_any(any) {
                    Err(e) => Err(ParseError::Failure(e)),
                    Ok(v) => Ok((rem, v)),
                }
            },
        }
    }
}

/// A record is made from itself.
impl<'a> TryFromAny<'a> for Any<'a> {
    open spec fn spec_try_from_any(any: AnyView) -> Result<AnyView, Error> {
        Ok(any)
    }

    fn try_from_any(any: Any<'a>) -> (r: Result<Any<'a>, Error>)
        ensures
            r == Ok::<Any<'a>, Error>(any),
    {
        Ok(any)
    }
}

/// A header and a content put together: the failure of the header, else
/// that of the content, else the octets of both.
pub open spec fn spec_join(
    header: Result<Seq<u8>, SerializeError>,
    content: Result<Seq<u8>, SerializeError>,
) -> Result<Seq<u8>, SerializeError> {
    match header {
        Err(e) => Err(e),
        Ok(h) => match content {
            Err(e) => Err(e),
            Ok(c) => Ok(h + c),
        },
    }
}

/// Under DER a record is the record at the front of the input, in canonical
/// form.
impl<'a> FromDer<'a> for Any<'a> {
    open spec fn spec_from_der(bytes: Seq<u8>) -> Result<(AnyView, int), ParseError> {
        spec_decode_any(bytes, true)
    }

    proof fn lemma_from_der_end(bytes: Seq<u8>) {
        lemma_any_end(bytes, true);
    }

    proof fn lemma_from_der_prefix(bytes: Seq<u8>, rest: Seq<u8>) {
        lemma_any_prefix(bytes, rest, true);
    }

    proof fn lemma_from_der_cut(bytes: Seq<u8>, m: int) {
        lemma_any_cut(bytes, m, true);
    }

    fn from_der(bytes: &'a [u8]) -> (r: ParseResult<'a, Any<'a>>) {
        decode_any(bytes, true)
    }
}

/// A type that is written as DER: a header, and behind it a content.
pub trait ToDer {
    /// The octets of the header.
    spec fn spec_der_header(&self) -> Result<Seq<u8>, SerializeError>;

    /// The octets of the content.
    spec fn spec_der_content(&self) -> Result<Seq<u8>, SerializeError>;

    /// The length of the whole encoding. Fails where the value cannot be
    /// written or where `usize` cannot hold the length.
    fn to_der_len(&self) -> (r: Result<usize, Error>)
        ensures
            match r {
                Ok(n) => spec_join(self.spec_der_header(), self.spec_der_content()) matches Ok(enc)
                    && n == enc.len(),
                Err(_) => spec_join(self.spec_der_header(), self.spec_der_content()) matches Ok(
                    enc,
                ) ==> enc.len() > usize::MAX,
            },
    ;

    /// Appends the header to `out` and returns its length.
    fn write_der_header(&self, out: &mut Vec<u8>) -> (r: SerializeResult<usize>)
        ensures
            spec_written(r, old(out)@, final(out)@, self.spec_der_header()),
    ;

    /// Appends the content to `out` and returns its length.
    fn write_der_content(&self, out: &mut Vec<u8>) -> (r: SerializeResult<usize>)
        ensures
            spec_written(r, old(out)@, final(out)@, self.spec_der_content()),
    ;
}

/// The DER encoding of a value: its header, then its content.
pub open spec fn spec_to_der<T: ToDer + ?Sized>(t: &T) -> Result<Seq<u8>, SerializeError> {
    spec_join(t.spec_der_header(), t.spec_der_content())
}

/// Writes the DER encoding of `t` into a new vector.
pub fn to_der_vec<T: ToDer>(t: &T) -> (r: SerializeResult<Vec<u8>>)
    ensures
        match r {
            Ok(v) => spec_to_der(t) == Ok::<Seq<u8>, SerializeError>(v@),
            Err(e) => spec_to_der(t) == Err::<Seq<u8>, SerializeError>(e),
        },
{
    let mut v: Vec<u8> = Vec::new();
    if let Err(e) = t.write_der_header(&mut v) {
        return Err(e);
    }
    if let Err(e) = t.write_der_content(&mut v) {
        return Err(e);
    }
    proof {
        let h = t.spec_der_header()->Ok_0;
        let c = t.spec_der_content()->Ok_0;
        assert(v@ =~= h + c);
    }
    Ok(v)
}

/// Appends the DER encoding of `t` to `out` and returns its length. Where
/// the header cannot be written, nothing is; where the content cannot, the
/// header stays in `out`.
pub fn write_der<T: ToDer>(t: &T, out: &mut Vec<u8>) -> (r: SerializeResult<usize>)
    ensures
        match r {
            Ok(k) => spec_to_der(t) matches Ok(enc) && k == enc.len() && final(out)@ == old(out)@
                + enc,
            Err(e) => spec_to_der(t) == Err::<Seq<u8>, SerializeError>(e) && match t.spec_der_header() {
                Ok(h) => final(out)@ == old(out)@ + h,
                Err(_) => final(out)@ == old(out)@,
            },
        },
{
    let n = match t.write_der_header(out) {
        Err(e) => {
            return Err(e);
        },
        Ok(n) => n,
    };
    match t.write_der_content(out) {
        Err(e) => Err(e),
        Ok(m) => {
            let total: usize = out.len();
            proof {
                let h = t.spec_der_header()->Ok_0;
                let c = t.spec_der_content()->Ok_0;
                assert(out@ =~= old(out)@ + (h + c));
                assert(n + m <= total);
            }
            Ok(n + m)
        },
    }
}

/// A type that can let go of the input it was decoded from.
pub trait ToStatic: DeepView {
    /// The type of the value that depends on no input.
    type Owned: DeepView<V = <Self as DeepView>::V>;

    /// A value that holds what this one holds and borrows nothing.
    fn to_static(&self) -> (r: Self::Owned)
        ensures
            r.deep_view() == self.deep_view(),
    ;
}

/// A vector lets go of the input element by element.
impl<T: ToStatic> ToStatic for Vec<T> {
    type Owned = Vec<T::Owned>;

    /// Each element of the result is what `to_static` gives for the element
    /// of this vector at the same place.
    fn to_static(&self) -> (r: Vec<T::Owned>)
        ensures
            r@.len() == self@.len(),
            forall|i: int|
                0 <= i < self@.len() ==> call_ensures(T::to_static, (&self@[i],), #[trigger] r@[i]),
    {
        let mut out: Vec<T::Owned> = Vec::new();
        let mut i: usize = 0;
        while i < self.len()
            invariant
                i <= self.len(),
                out.len() == i,
                forall|j: int| 0 <= j < i ==> out[j].deep_view() == self[j].deep_view(),
                forall|j: int|
                    0 <= j < i ==> call_ensures(T::to_static, (&self@[j],), #[trigger] out@[j]),
            decreases self.len() - i,
        {
            out.push(self[i].to_static());
            i = i + 1;
        }
        proof {
            assert(out.deep_view() =~= self.deep_view());
        }
        out
    }
}

} // verus!
