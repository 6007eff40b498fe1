//! Decoding the elements of a content one by one.
//!
//! An iterator holds what is left of the content. Each step decodes one
//! element at the front and moves behind it. It ends where nothing is left,
//! and after the first failure.

use crate::error::{Error, ErrorKind, Needed, ParseError};
use crate::traits::{FromBer, FromDer};
use std::marker::PhantomData;
use vstd::prelude::*;

verus! {

/// Marks an iterator that decodes under BER.
#[derive(Clone, Copy, Debug)]
pub struct BerParser;

/// Marks an iterator that decodes under DER.
#[derive(Clone, Copy, Debug)]
pub struct DerParser;

/// Steps through the elements of type `T` in a content, under the rules
/// that `F` marks.
pub struct SequenceIterator<'a, T, F> {
    data: &'a [u8],
    has_error: bool,
    _t: PhantomData<T>,
    _f: PhantomData<F>,
}

/// How `T` is decoded under BER, as a function of the input.
pub open spec fn spec_ber_decoder<'a, T: FromBer<'a>>() -> spec_fn(Seq<u8>) -> Result<
    (<T as DeepView>::V, int),
    ParseError,
> {
    |b: Seq<u8>| T::spec_from_ber(b)
}

/// How `T` is decoded under DER, as a function of the input.
pub open spec fn spec_der_decoder<'a, T: FromDer<'a>>() -> spec_fn(Seq<u8>) -> Result<
    (<T as DeepView>::V, int),
    ParseError,
> {
    |b: Seq<u8>| T::spec_from_der(b)
}

/// A decoder makes progress: a value takes at least one octet and no more
/// than there are.
pub open spec fn spec_progress<V>(f: spec_fn(Seq<u8>) -> Result<(V, int), ParseError>) -> bool {
    forall|b: Seq<u8>| (#[trigger] f(b)) is Ok ==> 0 < f(b)->Ok_0.1 <= b.len()
}

/// A decoder reads a prefix: octets behind a value do not change it.
pub open spec fn spec_prefix_stable<V>(
    f: spec_fn(Seq<u8>) -> Result<(V, int), ParseError>,
) -> bool {
    forall|b: Seq<u8>, rest: Seq<u8>| f(b) is Ok ==> #[trigger] f(b + rest) == f(b)
}

/// A decoder takes a value that is cut short for incomplete: the first
/// octets of a value, where they are some and not all of it, are neither a
/// value nor malformed.
pub open spec fn spec_cut_incomplete<V>(
    f: spec_fn(Seq<u8>) -> Result<(V, int), ParseError>,
) -> bool {
    forall|b: Seq<u8>, m: int|
        f(b) is Ok && 0 < m < f(b)->Ok_0.1 ==> (#[trigger] f(b.take(m))) is Err && f(
            b.take(m),
        )->Err_0 is Incomplete
}

/// The values that the decoder `f` finds in `s` one behind the other, up to
/// the end of `s`: all of them, or the first failure, without its degree.
pub open spec fn spec_sequence_of<V>(
    f: spec_fn(Seq<u8>) -> Result<(V, int), ParseError>,
    s: Seq<u8>,
) -> Result<Seq<V>, Error>
    decreases s.len(),
    when spec_progress(f)
{
    if s.len() == 0 {
        Ok(Seq::empty())
    } else {
        match f(s) {
            Err(e) => Err(e.spec_flatten()),
            Ok((v, n)) => match spec_sequence_of(f, s.skip(n)) {
                Err(e) => Err(e),
                Ok(vs) => Ok(seq![v] + vs),
            },
        }
    }
}

/// What one step of an iterator gives, and what it leaves: nothing where
/// nothing is left or a step has failed before; else the value at the front,
/// the rest behind it being left; else the failure, after which the
/// iterator gives no more.
pub open spec fn spec_step<V>(
    f: spec_fn(Seq<u8>) -> Result<(V, int), ParseError>,
    left: Seq<u8>,
    failed: bool,
) -> (Option<Result<V, Error>>, Seq<u8>, bool) {
    if failed || left.len() == 0 {
        (None, left, failed)
    } else {
        match f(left) {
            Ok((v, n)) => (Some(Ok(v)), left.skip(n), false),
            Err(e) => (Some(Err(e.spec_flatten())), left, true),
        }
    }
}

/// What the call of an iterator gives that follows `k` earlier calls, and
/// what it leaves.
pub open spec fn spec_nth_step<V>(
    f: spec_fn(Seq<u8>) -> Result<(V, int), ParseError>,
    left: Seq<u8>,
    failed: bool,
    k: nat,
) -> (Option<Result<V, Error>>, Seq<u8>, bool)
    decreases k,
{
    let first = spec_step(f, left, failed);
    if k == 0 {
        first
    } else {
        spec_nth_step(f, first.1, first.2, (k - 1) as nat)
    }
}

/// The view of what a step gave.
pub open spec fn spec_item_view<T: DeepView>(r: Option<Result<T, Error>>) -> Option<
    Result<T::V, Error>,
> {
    match r {
        None => None,
        Some(Ok(v)) => Some(Ok(v.deep_view())),
        Some(Err(e)) => Some(Err(e)),
    }
}

/// The values `acc` in front of what `r` holds; a failure stays what it is.
pub open spec fn spec_prepend<V>(acc: Seq<V>, r: Result<Seq<V>, Error>) -> Result<Seq<V>, Error> {
    match r {
        Ok(vs) => Ok(acc + vs),
        Err(e) => Err(e),
    }
}

/// Decoding under BER makes progress, reads a prefix, and takes a value
/// that is cut short for incomplete.
pub proof fn lemma_ber_decoder_laws<'a, T: FromBer<'a>>()
    ensures
        spec_progress(spec_ber_decoder::<T>()),
        spec_prefix_stable(spec_ber_decoder::<T>()),
        spec_cut_incomplete(spec_ber_decoder::<T>()),
{
    let f = spec_ber_decoder::<T>();
    assert forall|b: Seq<u8>, m: int| f(b) is Ok && 0 < m < f(b)->Ok_0.1 implies (#[trigger] f(
        b.take(m),
    )) is Err && f(b.take(m))->Err_0 is Incomplete by {
        T::lemma_from_ber_cut(b, m);
    }
    assert forall|b: Seq<u8>| (#[trigger] f(b)) is Ok implies 0 < f(b)->Ok_0.1 <= b.len() by {
        T::lemma_from_ber_end(b);
    }
    assert forall|b: Seq<u8>, rest: Seq<u8>| f(b) is Ok implies #[trigger] f(b + rest) == f(b) by {
        T::lemma_from_ber_prefix(b, rest);
    }
}

/// Decoding under DER makes progress, reads a prefix, and takes a value
/// that is cut short for incomplete.
pub proof fn lemma_der_decoder_laws<'a, T: FromDer<'a>>()
    ensures
        spec_progress(spec_der_decoder::<T>()),
        spec_prefix_stable(spec_der_decoder::<T>()),
        spec_cut_incomplete(spec_der_decoder::<T>()),
{
    let f = spec_der_decoder::<T>();
    assert forall|b: Seq<u8>, m: int| f(b) is Ok && 0 < m < f(b)->Ok_0.1 implies (#[trigger] f(
        b.take(m),
    )) is Err && f(b.take(m))->Err_0 is Incomplete by {
        T::lemma_from_der_cut(b, m);
    }
    assert forall|b: Seq<u8>| (#[trigger] f(b)) is Ok implies 0 < f(b)->Ok_0.1 <= b.len() by {
        T::lemma_from_der_end(b);
    }
    assert forall|b: Seq<u8>, rest: Seq<u8>| f(b) is Ok implies #[trigger] f(b + rest) == f(b) by {
        T::lemma_from_der_prefix(b, rest);
    }
}

/// A content that holds exactly the encodings `items`, one behind the
/// other, gives exactly their values, as many as there are encodings, and
/// no failure.
pub proof fn lemma_sequence_of_exhausts<V>(
    f: spec_fn(Seq<u8>) -> Result<(V, int), ParseError>,
    items: Seq<Seq<u8>>,
    values: Seq<V>,
)
    requires
        spec_progress(f),
        spec_prefix_stable(f),
        items.len() == values.len(),
        forall|i: int|
            0 <= i < items.len() ==> f(#[trigger] items[i]) == Ok::<(V, int), ParseError>(
                (values[i], items[i].len() as int),
            ),
    ensures
        spec_sequence_of(f, items.flatten()) == Ok::<Seq<V>, Error>(values),
    decreases items.len(),
{
    if items.len() == 0 {
        assert(values =~= Seq::empty());
    } else {
        let head = items[0];
        let tail = items.drop_first();
        let s = items.flatten();
        assert(s == head + tail.flatten());
        assert(f(head) is Ok);
        assert(f(head + tail.flatten()) == f(head));
        assert(s.skip(head.len() as int) =~= tail.flatten());
        assert forall|i: int| 0 <= i < tail.len() implies f(#[trigger] tail[i]) == Ok::<
            (V, int),
            ParseError,
        >((values.drop_first()[i], tail[i].len() as int)) by {
            assert(tail[i] == items[i + 1]);
        }
        lemma_sequence_of_exhausts(f, tail, values.drop_first());
        assert(seq![values[0]] + values.drop_first() =~= values);
    }
}

/// An iterator over a content that holds exactly the encodings `items`, one
/// behind the other, gives their values in order, one with each call, and
/// with the call behind the last of them it gives nothing, and no failure.
pub proof fn lemma_steps_exhaust<V>(
    f: spec_fn(Seq<u8>) -> Result<(V, int), ParseError>,
    items: Seq<Seq<u8>>,
    values: Seq<V>,
)
    requires
        spec_progress(f),
        spec_prefix_stable(f),
        items.len() == values.len(),
        forall|i: int|
            0 <= i < items.len() ==> f(#[trigger] items[i]) == Ok::<(V, int), ParseError>(
                (values[i], items[i].len() as int),
            ),
    ensures
        forall|k: nat|
            k < items.len() ==> (#[trigger] spec_nth_step(f, items.flatten(), false, k)).0 == Some(
                Ok::<V, Error>(values[k as int]),
            ),
        spec_nth_step(f, items.flatten(), false, items.len()).0 is None,
    decreases items.len(),
{
    let s = items.flatten();
    if items.len() == 0 {
    } else {
        let head = items[0];
        let tail = items.drop_first();
        assert(s == head + tail.flatten());
        assert(f(head) is Ok);
        assert(f(head + tail.flatten()) == f(head));
        assert(s.skip(head.len() as int) =~= tail.flatten());
        assert forall|i: int| 0 <= i < tail.len() implies f(#[trigger] tail[i]) == Ok::<
            (V, int),
            ParseError,
        >((values.drop_first()[i], tail[i].len() as int)) by {
            assert(tail[i] == items[i + 1]);
        }
        lemma_steps_exhaust(f, tail, values.drop_first());
        assert(spec_step(f, s, false) == (
            Some(Ok::<V, Error>(values[0])),
            tail.flatten(),
            false,
        ));
        assert forall|k: nat| k < items.len() implies (#[trigger] spec_nth_step(
            f,
            s,
            false,
            k,
        )).0 == Some(Ok::<V, Error>(values[k as int])) by {
            if k > 0 {
                let j = (k - 1) as nat;
                assert(spec_nth_step(f, s, false, k) == spec_nth_step(
                    f,
                    tail.flatten(),
                    false,
                    j,
                ));
                assert(spec_nth_step(f, tail.flatten(), false, j).0 == Some(
                    Ok::<V, Error>(values.drop_first()[j as int]),
                ));
            }
        }
        assert(spec_nth_step(f, s, false, items.len()) == spec_nth_step(
            f,
            tail.flatten(),
            false,
            tail.len(),
        ));
    }
}

/// An iterator over a content that ends in octets on which the decoder is
/// incomplete gives the values of the whole elements in front of them,
/// fails as incomplete at them, and gives nothing after that.
proof fn lemma_steps_fail_at_tail<V>(
    f: spec_fn(Seq<u8>) -> Result<(V, int), ParseError>,
    items: Seq<Seq<u8>>,
    tail: Seq<u8>,
    needed: Needed,
)
    requires
        spec_progress(f),
        spec_prefix_stable(f),
        forall|i: int| 0 <= i < items.len() ==> (#[trigger] f(items[i])) is Ok && f(items[i])->Ok_0.1
            == items[i].len(),
        tail.len() > 0,
        f(tail) == Err::<(V, int), ParseError>(ParseError::Incomplete(needed)),
    ensures
        forall|k: nat|
            k < items.len() ==> (#[trigger] spec_nth_step(
                f,
                items.flatten() + tail,
                false,
                k,
            )).0 == Some(Ok::<V, Error>(f(items[k as int])->Ok_0.0)),
        spec_nth_step(f, items.flatten() + tail, false, items.len()).0 == Some(
            Err::<V, Error>(Error::Incomplete(needed)),
        ),
        spec_nth_step(f, items.flatten() + tail, false, items.len() + 1).0 is None,
    decreases items.len(),
{
    let s = items.flatten() + tail;
    if items.len() == 0 {
        assert(s =~= tail);
        assert(spec_step(f, s, false) == (
            Some(Err::<V, Error>(Error::Incomplete(needed))),
            s,
            true,
        ));
        assert(spec_nth_step(f, s, false, 1) == spec_nth_step(f, s, true, 0));
    } else {
        let head = items[0];
        let rest = items.drop_first();
        let t = rest.flatten() + tail;
        assert(items.flatten() == head + rest.flatten());
        assert(s =~= head + t);
        assert(f(head) is Ok);
        assert(f(head + t) == f(head));
        assert(s.skip(head.len() as int) =~= t);
        assert forall|i: int| 0 <= i < rest.len() implies (#[trigger] f(rest[i])) is Ok && f(
            rest[i],
        )->Ok_0.1 == rest[i].len() by {
            assert(rest[i] == items[i + 1]);
        }
        lemma_steps_fail_at_tail(f, rest, tail, needed);
        assert(spec_step(f, s, false) == (Some(Ok::<V, Error>(f(head)->Ok_0.0)), t, false));
        assert forall|k: nat| k < items.len() implies (#[trigger] spec_nth_step(
            f,
            s,
            false,
            k,
        )).0 == Some(Ok::<V, Error>(f(items[k as int])->Ok_0.0)) by {
            if k > 0 {
                let j = (k - 1) as nat;
                assert(spec_nth_step(f, s, false, k) == spec_nth_step(f, t, false, j));
                assert(rest[j as int] == items[k as int]);
            }
        }
        assert(spec_nth_step(f, s, false, items.len()) == spec_nth_step(
            f,
            t,
            false,
            rest.len(),
        ));
        assert(spec_nth_step(f, s, false, items.len() + 1) == spec_nth_step(
            f,
            t,
            false,
            rest.len() + 1,
        ));
    }
}

/// A content that ends in octets on which the decoder is incomplete fails
/// as incomplete, however many whole elements stand in front of them.
proof fn lemma_sequence_of_fails_at_tail<V>(
    f: spec_fn(Seq<u8>) -> Result<(V, int), ParseError>,
    items: Seq<Seq<u8>>,
    tail: Seq<u8>,
    needed: Needed,
)
    requires
        spec_progress(f),
        spec_prefix_stable(f),
        forall|i: int| 0 <= i < items.len() ==> (#[trigger] f(items[i])) is Ok && f(items[i])->Ok_0.1
            == items[i].len(),
        tail.len() > 0,
        f(tail) == Err::<(V, int), ParseError>(ParseError::Incomplete(needed)),
    ensures
        spec_sequence_of(f, items.flatten() + tail) == Err::<Seq<V>, Error>(
            Error::Incomplete(needed),
        ),
    decreases items.len(),
{
    if items.len() == 0 {
        assert(items.flatten() + tail =~= tail);
    } else {
        let head = items[0];
        let rest = items.drop_first();
        let s = items.flatten() + tail;
        assert(items.flatten() == head + rest.flatten());
        assert(s =~= head + (rest.flatten() + tail));
        assert(f(head) is Ok);
        assert(f(head + (rest.flatten() + tail)) == f(head));
        assert(s.skip(head.len() as int) =~= rest.flatten() + tail);
        assert forall|i: int| 0 <= i < rest.len() implies (#[trigger] f(rest[i])) is Ok && f(
            rest[i],
        )->Ok_0.1 == rest[i].len() by {
            assert(rest[i] == items[i + 1]);
        }
        lemma_sequence_of_fails_at_tail(f, rest, tail, needed);
    }
}

/// A content that ends in an element cut short fails as incomplete, however
/// many whole elements stand in front of it. The element cut short is the
/// first `m` octets of `whole`, some and not all of the value that `whole`
/// starts with.
pub proof fn lemma_sequence_of_truncated<V>(
    f: spec_fn(Seq<u8>) -> Result<(V, int), ParseError>,
    items: Seq<Seq<u8>>,
    whole: Seq<u8>,
    m: int,
)
    requires
        spec_progress(f),
        spec_prefix_stable(f),
        spec_cut_incomplete(f),
        forall|i: int| 0 <= i < items.len() ==> (#[trigger] f(items[i])) is Ok && f(items[i])->Ok_0.1
            == items[i].len(),
        f(whole) is Ok,
        0 < m < f(whole)->Ok_0.1,
    ensures
        spec_sequence_of(f, items.flatten() + whole.take(m)) matches Err(e) && e.spec_kind()
            == ErrorKind::Incomplete,
{
    let tail = whole.take(m);
    assert(f(tail) is Err && f(tail)->Err_0 is Incomplete);
    lemma_sequence_of_fails_at_tail(f, items, tail, f(tail)->Err_0->Incomplete_0);
}

/// An iterator over a content that ends in an element cut short gives the
/// values of the whole elements in front of it, fails as incomplete at the
/// element cut short, however many whole elements there are, and gives
/// nothing after that: the octets cut short are never given as a value.
/// The element cut short is the first `m` octets of `whole`, some and not
/// all of the value that `whole` starts with.
pub proof fn lemma_steps_truncated<V>(
    f: spec_fn(Seq<u8>) -> Result<(V, int), ParseError>,
    items: Seq<Seq<u8>>,
    whole: Seq<u8>,
    m: int,
)
    requires
        spec_progress(f),
        spec_prefix_stable(f),
        spec_cut_incomplete(f),
        forall|i: int| 0 <= i < items.len() ==> (#[trigger] f(items[i])) is Ok && f(items[i])->Ok_0.1
            == items[i].len(),
        f(whole) is Ok,
        0 < m < f(whole)->Ok_0.1,
    ensures
        forall|k: nat|
            k < items.len() ==> (#[trigger] spec_nth_step(
                f,
                items.flatten() + whole.take(m),
                false,
                k,
            )).0 == Some(Ok::<V, Error>(f(items[k as int])->Ok_0.0)),
        spec_nth_step(f, items.flatten() + whole.take(m), false, items.len()).0 matches Some(
            Err(e),
        ) && e.spec_kind() == ErrorKind::Incomplete,
        spec_nth_step(f, items.flatten() + whole.take(m), false, items.len() + 1).0 is None,
{
    let tail = whole.take(m);
    assert(f(tail) is Err && f(tail)->Err_0 is Incomplete);
    lemma_steps_fail_at_tail(f, items, tail, f(tail)->Err_0->Incomplete_0);
}

impl<'a, T, F> SequenceIterator<'a, T, F> {
    /// The content that is left.
    pub closed spec fn spec_left(&self) -> Seq<u8> {
        self.data@
    }

    /// Whether a step has failed.
    pub closed spec fn spec_failed(&self) -> bool {
        self.has_error
    }

    /// An iterator at the front of `data`.
    pub fn new(data: &'a [u8]) -> (it: Self)
        ensures
            it.spec_left() == data@,
            !it.spec_failed(),
    {
        SequenceIterator { data, has_error: false, _t: PhantomData, _f: PhantomData }
    }
}

impl<'a, T: FromBer<'a>> SequenceIterator<'a, T, BerParser> {
    /// Decodes the next element under BER.
    pub fn next(&mut self) -> (r: Option<Result<T, Error>>)
        ensures
            (spec_item_view(r), final(self).spec_left(), final(self).spec_failed()) == spec_step(
                spec_ber_decoder::<T>(),
                old(self).spec_left(),
                old(self).spec_failed(),
            ),
    {
        if self.has_error || self.data.len() == 0 {
            return None;
        }
        match T::from_ber(self.data) {
            Ok((rem, v)) => {
                self.data = rem;
                Some(Ok(v))
            },
            Err(e) => {
                self.has_error = true;
                Some(Err(e.flatten()))
            },
        }
    }
}

impl<'a, T: FromDer<'a>> SequenceIterator<'a, T, DerParser> {
    /// Decodes the next element under DER.
    pub fn next(&mut self) -> (r: Option<Result<T, Error>>)
        ensures
            (spec_item_view(r), final(self).spec_left(), final(self).spec_failed()) == spec_step(
                spec_der_decoder::<T>(),
                old(self).spec_left(),
                old(self).spec_failed(),
            ),
    {
        if self.has_error || self.data.len() == 0 {
            return None;
        }
        match T::from_der(self.data) {
            Ok((rem, v)) => {
                self.data = rem;
                Some(Ok(v))
            },
            Err(e) => {
                self.has_error = true;
                Some(Err(e.flatten()))
            },
        }
    }
}

/// Decodes every element of `data` under BER.
pub fn collect_ber<'a, T: FromBer<'a>>(data: &'a [u8]) -> (r: Result<Vec<T>, Error>)
    ensures
        match r {
            Ok(v) => spec_sequence_of(spec_ber_decoder::<T>(), data@) == Ok::<
                Seq<<T as DeepView>::V>,
                Error,
            >(v.deep_view()),
            Err(e) => spec_sequence_of(spec_ber_decoder::<T>(), data@) == Err::<
                Seq<<T as DeepView>::V>,
                Error,
            >(e),
        },
{
    let ghost f = spec_ber_decoder::<T>();
    let mut it = SequenceIterator::<'a, T, BerParser>::new(data);
    let mut out: Vec<T> = Vec::new();
    proof {
        lemma_ber_decoder_laws::<T>();
        assert(out.deep_view() + spec_sequence_of(f, data@)->Ok_0 =~= spec_sequence_of(
            f,
            data@,
        )->Ok_0);
    }
    loop
        invariant
            f == spec_ber_decoder::<T>(),
            spec_progress(f),
            !it.spec_failed(),
            spec_sequence_of(f, data@) == spec_prepend(
                out.deep_view(),
                spec_sequence_of(f, it.spec_left()),
            ),
        decreases it.spec_left().len(),
    {
        let ghost left = it.spec_left();
        let ghost before = out.deep_view();
        match it.next() {
            None => {
                proof {
                    assert(before + Seq::<<T as DeepView>::V>::empty() =~= before);
                }
                return Ok(out);
            },
            Some(Err(e)) => {
                return Err(e);
            },
            Some(Ok(v)) => {
                out.push(v);
                proof {
                    let (m, n) = f(left)->Ok_0;
                    let vs = spec_sequence_of(f, left.skip(n));
                    assert(out.deep_view() =~= before.push(m));
                    if vs is Ok {
                        assert(before + (seq![m] + vs->Ok_0) =~= before.push(m) + vs->Ok_0);
                    }
                }
            },
        }
    }
}

/// Decodes every element of `data` under DER.
pub fn collect_der<'a, T: FromDer<'a>>(data: &'a [u8]) -> (r: Result<Vec<T>, Error>)
    ensures
        match r {
            Ok(v) => spec_sequence_of(spec_der_decoder::<T>(), data@) == Ok::<
                Seq<<T as DeepView>::V>,
                Error,
            >(v.deep_view()),
            Err(e) => spec_sequence_of(spec_der_decoder::<T>(), data@) == Err::<
                Seq<<T as DeepView>::V>,
                Error,
            >(e),
        },
{
    let ghost f = spec_der_decoder::<T>();
    let mut it = SequenceIterator::<'a, T, DerParser>::new(data);
    let mut out: Vec<T> = Vec::new();
    proof {
        lemma_der_decoder_laws::<T>();
        assert(out.deep_view() + spec_sequence_of(f, data@)->Ok_0 =~= spec_sequence_of(
            f,
            data@,
        )->Ok_0);
    }
    loop
        invariant
            f == spec_der_decoder::<T>(),
            spec_progress(f),
            !it.spec_failed(),
            spec_sequence_of(f, data@) == spec_prepend(
                out.deep_view(),
                spec_sequence_of(f, it.spec_left()),
            ),
        decreases it.spec_left().len(),
    {
        let ghost left = it.spec_left();
        let ghost before = out.deep_view();
        match it.next() {
            None => {
                proof {
                    assert(before + Seq::<<T as DeepView>::V>::empty() =~= before);
                }
                return Ok(out);
            },
            Some(Err(e)) => {
                return Err(e);
            },
            Some(Ok(v)) => {
                out.push(v);
                proof {
                    let (m, n) = f(left)->Ok_0;
                    let vs = spec_sequence_of(f, left.skip(n));
                    assert(out.deep_view() =~= before.push(m));
                    if vs is Ok {
                        assert(before + (seq![m] + vs->Ok_0) =~= before.push(m) + vs->Ok_0);
                    }
                }
            },
        }
    }
}

} // verus!
