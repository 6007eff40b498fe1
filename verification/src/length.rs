//! The length octets.
//!
//! A first octet from 0 to 126 is the length itself. The octet 128 stands
//! for an indefinite length: the content runs up to an end-of-contents
//! marker. An octet from 129 to 254 says how many octets follow it, less
//! 128, and those hold the length as a big-endian number. The octets 127 and
//! 255 are reserved.

use crate::error::{Error, Needed, SerializeError, SerializeResult};
use vstd::prelude::*;

verus! {

/// The length of a content.
#[derive(Clone, Copy, Debug, PartialEq, Eq, Structural)]
pub enum Length {
    /// Exactly this many content octets follow.
    Definite(usize),
    /// The content ends at an end-of-contents marker. BER only.
    Indefinite,
}

/// The big-endian octets of `n`, as few as `n` has; none for zero.
pub open spec fn spec_be_bytes(n: nat) -> Seq<u8>
    decreases n,
{
    if n == 0 {
        Seq::empty()
    } else {
        spec_be_bytes(n / 256).push((n % 256) as u8)
    }
}

/// The number that `s` holds in big-endian order.
pub open spec fn spec_be_value(s: Seq<u8>) -> nat
    decreases s.len(),
{
    if s.len() == 0 {
        0
    } else {
        spec_be_value(s.drop_last()) * 256 + s.last() as nat
    }
}

/// The canonical length octets of `n`: the short form below 127, else the
/// long form with as few octets as `n` has.
pub open spec fn spec_encode_length(n: nat) -> Seq<u8> {
    if n < 127 {
        seq![n as u8]
    } else {
        seq![(128 + spec_be_bytes(n).len()) as u8] + spec_be_bytes(n)
    }
}

/// The length that the octets at the front of `s` hold, and how many octets
/// hold it.
///
/// Under DER (`der`) an indefinite length is refused, and so is a long form
/// with a leading zero or for a length below 127.
pub open spec fn spec_decode_length(s: Seq<u8>, der: bool) -> Result<(Length, int), Error> {
    if s.len() == 0 {
        Err(Error::InvalidLength)
    } else if s[0] < 127 {
        Ok((Length::Definite(s[0] as usize), 1))
    } else if s[0] == 127 || s[0] == 255 {
        Err(Error::InvalidLength)
    } else if s[0] == 128 {
        if der {
            Err(Error::IndefiniteLengthUnexpected)
        } else {
            Ok((Length::Indefinite, 1))
        }
    } else {
        let k = s[0] - 128;
        if s.len() < 1 + k {
            Err(Error::InvalidLength)
        } else {
            let v = spec_be_value(s.subrange(1, 1 + k));
            if v > usize::MAX {
                Err(Error::InvalidLength)
            } else if der && (v < 127 || s[1] == 0) {
                Err(Error::InvalidLength)
            } else {
                Ok((Length::Definite(v as usize), 1 + k))
            }
        }
    }
}

/// Whether `s` ends inside the length octets, and how many octets are
/// missing at least: one where there is none, and in the long form as many
/// as the first octet announces and `s` does not have.
pub open spec fn spec_length_cut(s: Seq<u8>) -> Option<Needed> {
    if s.len() == 0 {
        Some(Needed::Size(1))
    } else if 128 < s[0] < 255 && s.len() < 1 + (s[0] - 128) {
        Some(Needed::Size((1 + (s[0] - 128) - s.len()) as usize))
    } else {
        None
    }
}

/// Length octets that are cut short hold no length.
pub proof fn lemma_length_cut_fails(s: Seq<u8>, der: bool)
    requires
        spec_length_cut(s) is Some,
    ensures
        spec_decode_length(s, der) is Err,
{
}

/// The first `m` octets of `s` hold the length that the length octets of `s`
/// hold where they hold all of them, and are cut short where they do not.
pub proof fn lemma_length_take(s: Seq<u8>, m: int, der: bool)
    requires
        spec_decode_length(s, der) is Ok,
        0 <= m <= s.len(),
    ensures
        spec_decode_length(s, der)->Ok_0.1 <= m ==> spec_decode_length(s.take(m), der)
            == spec_decode_length(s, der) && spec_length_cut(s.take(m)) is None,
        m < spec_decode_length(s, der)->Ok_0.1 ==> spec_length_cut(s.take(m)) is Some,
{
    let p = s.take(m);
    if m > 0 {
        assert(p[0] == s[0]);
        if s[0] > 128 {
            let k = s[0] - 128;
            if 1 + k <= m {
                assert(p.subrange(1, 1 + k) =~= s.subrange(1, 1 + k));
                assert(p[1] == s[1]);
            }
        }
    }
}

/// The octets of a number hold that number.
pub proof fn lemma_be_value_of_bytes(n: nat)
    ensures
        spec_be_value(spec_be_bytes(n)) == n,
    decreases n,
{
    if n > 0 {
        lemma_be_value_of_bytes(n / 256);
        assert(spec_be_bytes(n).drop_last() =~= spec_be_bytes(n / 256));
    }
}

/// A number that is not zero has octets, and the first of them is not zero.
pub proof fn lemma_be_bytes_lead(n: nat)
    requires
        n > 0,
    ensures
        spec_be_bytes(n).len() >= 1,
        spec_be_bytes(n)[0] != 0,
    decreases n,
{
    if n >= 256 {
        lemma_be_bytes_lead(n / 256);
    } else {
        assert(spec_be_bytes(n / 256).len() == 0);
    }
}

/// A number that fits in 64 bits has at most eight octets.
pub proof fn lemma_be_bytes_len(n: nat)
    requires
        n <= u64::MAX,
    ensures
        spec_be_bytes(n).len() <= 8,
{
    let n1 = n / 256;
    let n2 = n1 / 256;
    let n3 = n2 / 256;
    let n4 = n3 / 256;
    let n5 = n4 / 256;
    let n6 = n5 / 256;
    let n7 = n6 / 256;
    let n8 = n7 / 256;
    assert(n8 == 0);
    assert(spec_be_bytes(n8).len() == 0);
    assert(spec_be_bytes(n7).len() <= 1);
    assert(spec_be_bytes(n6).len() <= 2);
    assert(spec_be_bytes(n5).len() <= 3);
    assert(spec_be_bytes(n4).len() <= 4);
    assert(spec_be_bytes(n3).len() <= 5);
    assert(spec_be_bytes(n2).len() <= 6);
    assert(spec_be_bytes(n1).len() <= 7);
}

/// A longer front of `s` holds no smaller a number.
pub proof fn lemma_be_value_grows(s: Seq<u8>, a: int, b: int)
    requires
        0 <= a <= b <= s.len(),
    ensures
        spec_be_value(s.subrange(0, a)) <= spec_be_value(s.subrange(0, b)),
    decreases b - a,
{
    if a < b {
        lemma_be_value_grows(s, a, b - 1);
        assert(s.subrange(0, b).drop_last() =~= s.subrange(0, b - 1));
    }
}

/// The canonical length octets are at least one and at most nine.
pub proof fn lemma_encode_length_len(n: nat)
    requires
        n <= u64::MAX,
    ensures
        1 <= spec_encode_length(n).len() <= 9,
        n < 127 ==> spec_encode_length(n).len() == 1,
        n >= 127 ==> spec_encode_length(n).len() >= 2,
{
    lemma_be_bytes_len(n);
    if n >= 127 {
        lemma_be_bytes_lead(n);
    }
}

/// Length octets are at least one and no more than there are octets.
pub proof fn lemma_length_end(s: Seq<u8>, der: bool)
    ensures
        spec_decode_length(s, der) matches Ok((l, n)) ==> 1 <= n <= s.len(),
{
}

/// Octets behind the length octets do not change what these hold.
pub proof fn lemma_length_prefix(s: Seq<u8>, rest: Seq<u8>, der: bool)
    requires
        spec_decode_length(s, der) is Ok,
    ensures
        spec_decode_length(s + rest, der) == spec_decode_length(s, der),
{
    let t = s + rest;
    assert(t[0] == s[0]);
    if s[0] > 128 {
        let k = s[0] - 128;
        assert(t.subrange(1, 1 + k) =~= s.subrange(1, 1 + k));
        assert(t[1] == s[1]);
    }
}

/// The canonical octets of a length hold that length, under BER and under
/// DER, whatever follows them.
pub proof fn lemma_length_roundtrip(n: usize, rest: Seq<u8>, der: bool)
    ensures
        spec_decode_length(spec_encode_length(n as nat) + rest, der) == Ok::<(Length, int), Error>(
            (Length::Definite(n), spec_encode_length(n as nat).len() as int),
        ),
{
    let enc = spec_encode_length(n as nat);
    let s = enc + rest;
    if n < 127 {
        assert(s[0] == n as u8);
    } else {
        let digits = spec_be_bytes(n as nat);
        lemma_be_bytes_len(n as nat);
        lemma_be_bytes_lead(n as nat);
        lemma_be_value_of_bytes(n as nat);
        let k = digits.len() as int;
        assert(s[0] == (128 + k) as u8);
        assert(s.subrange(1, 1 + k) =~= digits);
        assert(s[1] == digits[0]);
    }
}

/// Octets that do not start with zero are the octets of the number they
/// hold, which is not zero.
pub proof fn lemma_be_bytes_of_value(d: Seq<u8>)
    requires
        d.len() > 0,
        d[0] != 0,
    ensures
        spec_be_value(d) > 0,
        spec_be_bytes(spec_be_value(d)) == d,
    decreases d.len(),
{
    let p = d.drop_last();
    let x = d.last();
    if p.len() == 0 {
        assert(spec_be_value(p) == 0);
        assert(spec_be_bytes(0).push(x) =~= d);
    } else {
        assert(p[0] == d[0]);
        lemma_be_bytes_of_value(p);
        let v = spec_be_value(p) * 256 + x as nat;
        assert(v / 256 == spec_be_value(p) && v % 256 == x);
        assert(p.push(x) =~= d);
    }
}

/// Length octets that DER accepts are the canonical octets of the length
/// they hold: DER has one way to write a length.
pub proof fn lemma_length_canonical(s: Seq<u8>)
    requires
        spec_decode_length(s, true) is Ok,
    ensures
        spec_decode_length(s, true) matches Ok((Length::Definite(v), n)) && spec_encode_length(
            v as nat,
        ) == s.subrange(0, n),
{
    let (l, n) = spec_decode_length(s, true)->Ok_0;
    if s[0] < 127 {
        assert(spec_encode_length(s[0] as nat) =~= s.subrange(0, 1));
    } else {
        let k = s[0] - 128;
        let d = s.subrange(1, 1 + k);
        assert(d[0] == s[1]);
        lemma_be_bytes_of_value(d);
        assert(seq![s[0]] + d =~= s.subrange(0, n));
    }
}

/// Reads the length octets at the front of `bytes`: the length, and how many
/// octets hold it.
pub fn decode_length(bytes: &[u8], der: bool) -> (r: Result<(Length, usize), Error>)
    ensures
        match r {
            Ok((l, n)) => spec_decode_length(bytes@, der) == Ok::<(Length, int), Error>(
                (l, n as int),
            ) && 1 <= n <= bytes@.len(),
            Err(e) => spec_decode_length(bytes@, der) == Err::<(Length, int), Error>(e),
        },
{
    if bytes.len() == 0 {
        return Err(Error::InvalidLength);
    }
    let b0: u8 = bytes[0];
    if b0 < 127 {
        return Ok((Length::Definite(b0 as usize), 1));
    }
    if b0 == 127 || b0 == 255 {
        return Err(Error::InvalidLength);
    }
    if b0 == 128 {
        if der {
            return Err(Error::IndefiniteLengthUnexpected);
        } else {
            return Ok((Length::Indefinite, 1));
        }
    }
    let k: usize = (b0 - 128) as usize;
    if bytes.len() - 1 < k {
        return Err(Error::InvalidLength);
    }
    let ghost digits = bytes@.subrange(1, 1 + k);
    let mut acc: usize = 0;
    let mut i: usize = 0;
    while i < k
        invariant
            i <= k,
            1 + k <= bytes@.len(),
            128 < bytes@[0] < 255,
            k == bytes@[0] - 128,
            digits == bytes@.subrange(1, 1 + k),
            acc as nat == spec_be_value(digits.subrange(0, i as int)),
        decreases k - i,
    {
        let b: u8 = bytes[1 + i];
        proof {
            assert(digits.subrange(0, i + 1).drop_last() =~= digits.subrange(0, i as int));
            assert(digits.subrange(0, i + 1).last() == b);
            assert(spec_be_value(digits.subrange(0, i + 1)) == acc * 256 + b);
        }
        if acc > (usize::MAX - b as usize) / 256 {
            proof {
                assert(acc * 256 + b > usize::MAX);
                lemma_be_value_grows(digits, i + 1, k as int);
                assert(digits.subrange(0, k as int) =~= digits);
            }
            return Err(Error::InvalidLength);
        }
        acc = acc * 256 + b as usize;
        i = i + 1;
    }
    proof {
        assert(digits.subrange(0, k as int) =~= digits);
    }
    if der && (acc < 127 || bytes[1] == 0) {
        return Err(Error::InvalidLength);
    }
    Ok((Length::Definite(acc), 1 + k))
}

/// Whether `bytes` ends inside the length octets, and how many octets are
/// missing at least.
pub fn length_cut(bytes: &[u8]) -> (r: Option<Needed>)
    ensures
        r == spec_length_cut(bytes@),
{
    if bytes.len() == 0 {
        return Some(Needed::Size(1));
    }
    let b0: u8 = bytes[0];
    if 128 < b0 && b0 < 255 {
        let k: usize = (b0 - 128) as usize;
        if bytes.len() - 1 < k {
            return Some(Needed::Size(k - (bytes.len() - 1)));
        }
    }
    None
}

/// Appends the big-endian octets of `n` to `out`.
fn push_be_bytes(n: usize, out: &mut Vec<u8>)
    ensures
        final(out)@ == old(out)@ + spec_be_bytes(n as nat),
    decreases n,
{
    if n > 0 {
        push_be_bytes(n / 256, out);
        out.push((n % 256) as u8);
    }
    proof {
        assert(final(out)@ =~= old(out)@ + spec_be_bytes(n as nat));
    }
}

/// How many big-endian octets `n` has.
fn be_bytes_len(n: usize) -> (k: usize)
    ensures
        k == spec_be_bytes(n as nat).len(),
        k <= 8,
{
    proof {
        lemma_be_bytes_len(n as nat);
    }
    let mut m: usize = n;
    let mut k: usize = 0;
    while m > 0
        invariant
            k + spec_be_bytes(m as nat).len() == spec_be_bytes(n as nat).len(),
            spec_be_bytes(n as nat).len() <= 8,
        decreases m,
    {
        m = m / 256;
        k = k + 1;
    }
    k
}

impl Length {
    /// The canonical octets of this length. An indefinite length has none.
    pub open spec fn spec_to_der(self) -> Result<Seq<u8>, Error> {
        match self {
            Length::Definite(n) => Ok(spec_encode_length(n as nat)),
            Length::Indefinite => Err(Error::IndefiniteLengthUnexpected),
        }
    }

    /// Whether the length is stated up front.
    pub fn is_definite(&self) -> (b: bool)
        ensures
            b == (*self is Definite),
    {
        match self {
            Length::Definite(_) => true,
            Length::Indefinite => false,
        }
    }

    /// How many octets the canonical form of this length takes.
    pub fn to_der_len(&self) -> (r: Result<usize, Error>)
        ensures
            match r {
                Ok(k) => self.spec_to_der() matches Ok(enc) && k == enc.len() && 1 <= k <= 9,
                Err(e) => self.spec_to_der() == Err::<Seq<u8>, Error>(e),
            },
    {
        match *self {
            Length::Indefinite => Err(Error::IndefiniteLengthUnexpected),
            Length::Definite(n) => {
                if n < 127 {
                    Ok(1)
                } else {
                    Ok(1 + be_bytes_len(n))
                }
            },
        }
    }

    /// Appends the canonical octets of this length to `out` and returns how
    /// many they are. Writes nothing where the length is indefinite.
    pub fn write_der(&self, out: &mut Vec<u8>) -> (r: SerializeResult<usize>)
        ensures
            match r {
                Ok(k) => self.spec_to_der() matches Ok(enc) && k == enc.len() && final(out)@ == old(
                    out,
                )@ + enc,
                Err(e) => self.spec_to_der() matches Err(f) && e == SerializeError::ASN1Error(f)
                    && final(out)@ == old(out)@,
            },
    {
        match *self {
            Length::Indefinite => Err(SerializeError::ASN1Error(Error::IndefiniteLengthUnexpected)),
            Length::Definite(n) => {
                if n < 127 {
                    out.push(n as u8);
                    proof {
                        assert(final(out)@ =~= old(out)@ + spec_encode_length(n as nat));
                    }
                    Ok(1)
                } else {
                    let k = be_bytes_len(n);
                    out.push(128 + k as u8);
                    push_be_bytes(n, out);
                    proof {
                        assert(final(out)@ =~= old(out)@ + spec_encode_length(n as nat));
                    }
                    Ok(1 + k)
                }
            },
        }
    }
}

} // verus!
