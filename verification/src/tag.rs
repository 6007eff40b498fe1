//! Tag numbers and the identifier octets that carry them.
//!
//! The first octet holds the class in its two high bits, the constructed
//! flag in the next bit and the tag number in the five low bits. A tag
//! number of 31 or more does not fit: the five bits are all set and the
//! number follows in base 128, most significant digit first, one digit per
//! octet, with the high bit set on every octet but the last.

use crate::class::Class;
use crate::error::Error;
use vstd::prelude::*;

verus! {

/// A tag number. It identifies a type only together with a class.
pub type Tag = u32;

/// The universal tag number of UTF8String.
pub const TAG_UTF8_STRING: Tag = 12;

/// The universal tag number of SEQUENCE.
pub const TAG_SEQUENCE: Tag = 16;

/// What the identifier octets say.
#[derive(Clone, Copy, Debug, PartialEq, Eq, Structural)]
pub struct Identifier {
    pub class: Class,
    pub constructed: bool,
    pub tag: Tag,
}

/// Reads base-128 digits of `s` from index `i` on, after digits that already
/// amount to `acc`, up to and with the first octet whose high bit is clear.
/// Gives the number and the index behind its last digit.
pub open spec fn spec_tag_digits(s: Seq<u8>, i: int, acc: nat) -> Result<(nat, int), Error>
    decreases s.len() - i,
{
    if i < 0 || i >= s.len() {
        Err(Error::InvalidTag)
    } else {
        let v = acc * 128 + (s[i] % 128) as nat;
        if v > u32::MAX {
            Err(Error::InvalidTag)
        } else if s[i] < 128 {
            Ok((v, i + 1))
        } else {
            spec_tag_digits(s, i + 1, v)
        }
    }
}

/// The base-128 digits of `n`, most significant first, the high bit set on
/// each octet but the last one of a number that ends here (`last`).
pub open spec fn spec_tag_digits_enc(n: nat, last: bool) -> Seq<u8>
    decreases n,
{
    let d = (n % 128 + if last { 0nat } else { 128nat }) as u8;
    if n < 128 {
        seq![d]
    } else {
        spec_tag_digits_enc(n / 128, false).push(d)
    }
}

/// The number that the digits of `n` spell when they follow digits that
/// amount to `acc`.
pub open spec fn spec_feed(acc: nat, n: nat) -> nat
    decreases n,
{
    if n < 128 {
        acc * 128 + n
    } else {
        spec_feed(acc, n / 128) * 128 + n % 128
    }
}

/// What the identifier octets at the front of `s` say, and how many they are.
///
/// Under DER (`der`) the long form is refused where the short form would
/// do, and so is a leading digit of zero.
pub open spec fn spec_decode_identifier(s: Seq<u8>, der: bool) -> Result<(Identifier, int), Error> {
    if s.len() == 0 {
        Err(Error::InvalidTag)
    } else {
        let class = Class::spec_from_bits((s[0] / 64) as u8);
        let constructed = (s[0] / 32) % 2 == 1;
        if s[0] % 32 < 31 {
            Ok((Identifier { class, constructed, tag: (s[0] % 32) as u32 }, 1))
        } else {
            match spec_tag_digits(s, 1, 0) {
                Err(e) => Err(e),
                Ok((t, end)) => if der && (s[1] == 128 || t < 31) {
                    Err(Error::InvalidTag)
                } else {
                    Ok((Identifier { class, constructed, tag: t as u32 }, end))
                },
            }
        }
    }
}

/// Whether the base-128 digits from index `i` on, behind digits that amount
/// to `acc`, run up to the end of `s` and are not at their end: each has its
/// high bit set, and none takes the number above `u32::MAX`.
pub open spec fn spec_tag_digits_cut(s: Seq<u8>, i: int, acc: nat) -> bool
    decreases s.len() - i,
{
    if i < 0 {
        false
    } else if i >= s.len() {
        true
    } else {
        let v = acc * 128 + (s[i] % 128) as nat;
        v <= u32::MAX && s[i] >= 128 && spec_tag_digits_cut(s, i + 1, v)
    }
}

/// Whether `s` ends inside the identifier octets: it is empty, or it
/// announces a tag number in the long form and ends before the last digit.
pub open spec fn spec_identifier_cut(s: Seq<u8>) -> bool {
    s.len() == 0 || (s[0] % 32 == 31 && spec_tag_digits_cut(s, 1, 0))
}

/// The canonical identifier octets: the short form for tag numbers below 31,
/// else the long form with as few digits as the number has.
pub open spec fn spec_encode_identifier(id: Identifier) -> Seq<u8> {
    let lead = id.class.spec_bits() * 64 + if id.constructed { 32int } else { 0int };
    if id.tag < 31 {
        seq![(lead + id.tag) as u8]
    } else {
        seq![(lead + 31) as u8] + spec_tag_digits_enc(id.tag as nat, true)
    }
}

/// Digits that follow nothing spell the number itself.
pub proof fn lemma_feed_zero(n: nat)
    ensures
        spec_feed(0, n) == n,
    decreases n,
{
    if n >= 128 {
        lemma_feed_zero(n / 128);
    }
}

/// The digits of a number are at least one and at most as many as the number
/// has bits.
pub proof fn lemma_tag_digits_enc_len(n: nat, last: bool)
    ensures
        spec_tag_digits_enc(n, last).len() >= 1,
        n <= u32::MAX ==> spec_tag_digits_enc(n, last).len() <= 5,
    decreases n,
{
    if n >= 128 {
        lemma_tag_digits_enc_len(n / 128, false);
        if n <= u32::MAX {
            let n1 = n / 128;
            let n2 = n1 / 128;
            let n3 = n2 / 128;
            let n4 = n3 / 128;
            assert(n4 < 128);
            reveal_with_fuel(spec_tag_digits_enc, 6);
        }
    }
}

/// The leading digit of a number that is not zero is not zero.
pub proof fn lemma_tag_digits_enc_lead(n: nat, last: bool)
    requires
        n >= 1,
    ensures
        spec_tag_digits_enc(n, last)[0] % 128 != 0,
    decreases n,
{
    if n >= 128 {
        lemma_tag_digits_enc_lead(n / 128, false);
        lemma_tag_digits_enc_len(n / 128, false);
    }
}

/// Reading the digits of `n` where they stand in `s` gives `n` behind what
/// was read before.
pub proof fn lemma_tag_digits_read(s: Seq<u8>, i: int, acc: nat, n: nat, last: bool)
    requires
        0 <= i,
        i + spec_tag_digits_enc(n, last).len() <= s.len(),
        s.subrange(i, i + spec_tag_digits_enc(n, last).len()) == spec_tag_digits_enc(n, last),
        spec_feed(acc, n) <= u32::MAX,
    ensures
        last ==> spec_tag_digits(s, i, acc) == Ok::<(nat, int), Error>(
            (spec_feed(acc, n), i + spec_tag_digits_enc(n, last).len()),
        ),
        !last ==> spec_tag_digits(s, i, acc) == spec_tag_digits(
            s,
            i + spec_tag_digits_enc(n, last).len(),
            spec_feed(acc, n),
        ),
    decreases n,
{
    let enc = spec_tag_digits_enc(n, last);
    let len = enc.len() as int;
    if n < 128 {
        assert(s[i] == s.subrange(i, i + len)[0]);
    } else {
        let head = spec_tag_digits_enc(n / 128, false);
        let hl = head.len() as int;
        assert(len == hl + 1);
        assert(s.subrange(i, i + hl) =~= head) by {
            assert forall|j: int| 0 <= j < hl implies s.subrange(i, i + hl)[j] == head[j] by {
                assert(s.subrange(i, i + len)[j] == enc[j]);
            }
        }
        lemma_tag_digits_read(s, i, acc, n / 128, false);
        assert(s[i + hl] == s.subrange(i, i + len)[hl]);
        assert(s[i + hl] == enc[hl]);
    }
}

/// Octets behind the identifier do not change what it says.
pub proof fn lemma_tag_digits_prefix(s: Seq<u8>, rest: Seq<u8>, i: int, acc: nat)
    requires
        spec_tag_digits(s, i, acc) is Ok,
    ensures
        spec_tag_digits(s + rest, i, acc) == spec_tag_digits(s, i, acc),
    decreases s.len() - i,
{
    if 0 <= i < s.len() {
        assert((s + rest)[i] == s[i]);
        let v = acc * 128 + (s[i] % 128) as nat;
        if v <= u32::MAX && s[i] >= 128 {
            lemma_tag_digits_prefix(s, rest, i + 1, v);
        }
    }
}

/// The index behind the digits lies behind the index they start at, and in `s`.
pub proof fn lemma_tag_digits_end(s: Seq<u8>, i: int, acc: nat)
    ensures
        spec_tag_digits(s, i, acc) matches Ok((t, end)) ==> i < end <= s.len() && t <= u32::MAX,
    decreases s.len() - i,
{
    if 0 <= i < s.len() {
        let v = acc * 128 + (s[i] % 128) as nat;
        if v <= u32::MAX && s[i] >= 128 {
            lemma_tag_digits_end(s, i + 1, v);
        }
    }
}

/// An identifier takes at least one octet and no more than there are.
pub proof fn lemma_identifier_end(s: Seq<u8>, der: bool)
    ensures
        spec_decode_identifier(s, der) matches Ok((id, n)) ==> 1 <= n <= s.len(),
{
    lemma_tag_digits_end(s, 1, 0);
}

/// Octets behind the identifier do not change what it says.
pub proof fn lemma_identifier_prefix(s: Seq<u8>, rest: Seq<u8>, der: bool)
    requires
        spec_decode_identifier(s, der) is Ok,
    ensures
        spec_decode_identifier(s + rest, der) == spec_decode_identifier(s, der),
{
    assert((s + rest)[0] == s[0]);
    if s[0] % 32 == 31 {
        lemma_tag_digits_prefix(s, rest, 1, 0);
        lemma_tag_digits_end(s, 1, 0);
        assert((s + rest)[1] == s[1]);
    }
}

/// The canonical octets of an identifier say that identifier, under BER and
/// under DER, whatever follows them.
pub proof fn lemma_identifier_roundtrip(id: Identifier, rest: Seq<u8>, der: bool)
    ensures
        spec_decode_identifier(spec_encode_identifier(id) + rest, der) == Ok::<
            (Identifier, int),
            Error,
        >((id, spec_encode_identifier(id).len() as int)),
{
    let enc = spec_encode_identifier(id);
    let s = enc + rest;
    let lead = id.class.spec_bits() * 64 + if id.constructed { 32int } else { 0int };
    id.class.lemma_bits_roundtrip();
    if id.tag < 31 {
        assert(s[0] == (lead + id.tag) as u8);
    } else {
        let digits = spec_tag_digits_enc(id.tag as nat, true);
        assert(s[0] == (lead + 31) as u8);
        lemma_tag_digits_enc_len(id.tag as nat, true);
        lemma_tag_digits_enc_lead(id.tag as nat, true);
        lemma_feed_zero(id.tag as nat);
        assert(s.subrange(1, 1 + digits.len() as int) =~= digits);
        lemma_tag_digits_read(s, 1, 0, id.tag as nat, true);
        assert(s[1] == digits[0]);
    }
}

/// Digits that were read behind digits amounting to `acc`, which is not
/// zero, are the digits that the number they spell has behind those of
/// `acc`.
pub proof fn lemma_tag_digits_canonical(s: Seq<u8>, i: int, acc: nat)
    requires
        acc > 0,
        spec_tag_digits(s, i, acc) is Ok,
    ensures
        spec_tag_digits(s, i, acc) matches Ok((t, end)) && spec_tag_digits_enc(t, true)
            == spec_tag_digits_enc(acc, false) + s.subrange(i, end),
    decreases s.len() - i,
{
    lemma_tag_digits_end(s, i, acc);
    let (t, end) = spec_tag_digits(s, i, acc)->Ok_0;
    let v = acc * 128 + (s[i] % 128) as nat;
    assert(v / 128 == acc && v % 128 == s[i] % 128);
    if s[i] < 128 {
        assert(spec_tag_digits_enc(t, true) =~= spec_tag_digits_enc(acc, false) + s.subrange(
            i,
            end,
        ));
    } else {
        lemma_tag_digits_canonical(s, i + 1, v);
        assert(spec_tag_digits_enc(v, false) == spec_tag_digits_enc(acc, false).push(s[i]));
        assert(spec_tag_digits_enc(acc, false).push(s[i]) + s.subrange(i + 1, end)
            =~= spec_tag_digits_enc(acc, false) + s.subrange(i, end));
    }
}

/// Identifier octets that DER accepts are the canonical octets of what they
/// say: DER has one way to write an identifier.
pub proof fn lemma_identifier_canonical(s: Seq<u8>)
    requires
        spec_decode_identifier(s, true) is Ok,
    ensures
        spec_decode_identifier(s, true) matches Ok((id, n)) && spec_encode_identifier(id)
            == s.subrange(0, n),
{
    lemma_identifier_end(s, true);
    let (id, n) = spec_decode_identifier(s, true)->Ok_0;
    let bits = (s[0] / 64) as u8;
    assert(Class::spec_from_bits(bits).spec_bits() == bits);
    if s[0] % 32 < 31 {
        assert(spec_encode_identifier(id) =~= s.subrange(0, n));
    } else {
        lemma_tag_digits_end(s, 1, 0);
        let (t, end) = spec_tag_digits(s, 1, 0)->Ok_0;
        let v = (s[1] % 128) as nat;
        if s[1] < 128 {
            assert(spec_tag_digits_enc(t, true) =~= s.subrange(1, end));
        } else {
            lemma_tag_digits_canonical(s, 2, v);
            assert(spec_tag_digits_enc(v, false) =~= seq![s[1]]);
            assert(seq![s[1]] + s.subrange(2, end) =~= s.subrange(1, end));
        }
        assert(spec_encode_identifier(id) =~= s.subrange(0, n));
    }
}

/// Digits that are cut short spell no number.
pub proof fn lemma_tag_digits_cut_fails(s: Seq<u8>, i: int, acc: nat)
    requires
        spec_tag_digits_cut(s, i, acc),
    ensures
        spec_tag_digits(s, i, acc) is Err,
    decreases s.len() - i,
{
    if 0 <= i < s.len() {
        lemma_tag_digits_cut_fails(s, i + 1, acc * 128 + (s[i] % 128) as nat);
    }
}

/// Identifier octets that are cut short say nothing.
pub proof fn lemma_identifier_cut_fails(s: Seq<u8>, der: bool)
    requires
        spec_identifier_cut(s),
    ensures
        spec_decode_identifier(s, der) is Err,
{
    if s.len() > 0 {
        lemma_tag_digits_cut_fails(s, 1, 0);
    }
}

/// The first `m` octets of `s` spell the number that `s` spells where they
/// hold all of its digits, and are cut short where they do not.
pub proof fn lemma_tag_digits_take(s: Seq<u8>, m: int, i: int, acc: nat)
    requires
        spec_tag_digits(s, i, acc) is Ok,
        i <= m <= s.len(),
    ensures
        spec_tag_digits(s, i, acc)->Ok_0.1 <= m ==> spec_tag_digits(s.take(m), i, acc)
            == spec_tag_digits(s, i, acc),
        m < spec_tag_digits(s, i, acc)->Ok_0.1 ==> spec_tag_digits_cut(s.take(m), i, acc),
    decreases s.len() - i,
{
    lemma_tag_digits_end(s, i, acc);
    if i < m {
        assert(s.take(m)[i] == s[i]);
        let v = acc * 128 + (s[i] % 128) as nat;
        if s[i] >= 128 {
            lemma_tag_digits_take(s, m, i + 1, v);
        }
    }
}

/// The first `m` octets of `s` say what the identifier octets of `s` say
/// where they hold all of them, and are cut short where they hold some.
pub proof fn lemma_identifier_take(s: Seq<u8>, m: int, der: bool)
    requires
        spec_decode_identifier(s, der) is Ok,
        0 < m <= s.len(),
    ensures
        spec_decode_identifier(s, der)->Ok_0.1 <= m ==> spec_decode_identifier(s.take(m), der)
            == spec_decode_identifier(s, der) && !spec_identifier_cut(s.take(m)),
        m < spec_decode_identifier(s, der)->Ok_0.1 ==> spec_identifier_cut(s.take(m)),
{
    let p = s.take(m);
    assert(p[0] == s[0]);
    lemma_identifier_end(s, der);
    if s[0] % 32 == 31 {
        lemma_tag_digits_end(s, 1, 0);
        lemma_tag_digits_take(s, m, 1, 0);
        if spec_tag_digits(s, 1, 0)->Ok_0.1 <= m {
            assert(p[1] == s[1]);
            if spec_identifier_cut(p) {
                lemma_tag_digits_cut_fails(p, 1, 0);
            }
        }
    }
}

/// Whether `bytes` ends inside the identifier octets.
pub fn identifier_cut(bytes: &[u8]) -> (b: bool)
    ensures
        b == spec_identifier_cut(bytes@),
{
    if bytes.len() == 0 {
        return true;
    }
    if bytes[0] % 32 != 31 {
        return false;
    }
    let mut i: usize = 1;
    let mut acc: u32 = 0;
    loop
        invariant
            1 <= i,
            bytes@.len() > 0,
            bytes@[0] % 32 == 31,
            spec_tag_digits_cut(bytes@, 1, 0) == spec_tag_digits_cut(bytes@, i as int, acc as nat),
        decreases bytes.len() - i,
    {
        if i >= bytes.len() {
            return true;
        }
        let b: u8 = bytes[i];
        let v: u64 = acc as u64 * 128 + (b % 128) as u64;
        if v > u32::MAX as u64 || b < 128 {
            return false;
        }
        acc = v as u32;
        i = i + 1;
    }
}

/// Reads the base-128 digits of a tag number that start at index 1.
fn decode_tag_digits(bytes: &[u8]) -> (r: Result<(u32, usize), Error>)
    ensures
        match r {
            Ok((t, end)) => spec_tag_digits(bytes@, 1, 0) == Ok::<(nat, int), Error>(
                (t as nat, end as int),
            ),
            Err(e) => spec_tag_digits(bytes@, 1, 0) == Err::<(nat, int), Error>(e),
        },
{
    let mut i: usize = 1;
    let mut acc: u32 = 0;
    loop
        invariant
            1 <= i,
            spec_tag_digits(bytes@, 1, 0) == spec_tag_digits(bytes@, i as int, acc as nat),
        decreases bytes.len() - i,
    {
        if i >= bytes.len() {
            return Err(Error::InvalidTag);
        }
        let b: u8 = bytes[i];
        let v: u64 = acc as u64 * 128 + (b % 128) as u64;
        if v > u32::MAX as u64 {
            return Err(Error::InvalidTag);
        }
        acc = v as u32;
        i = i + 1;
        if b < 128 {
            return Ok((acc, i));
        }
    }
}

/// Reads the identifier octets at the front of `bytes`: what they say, and
/// how many they are.
pub fn decode_identifier(bytes: &[u8], der: bool) -> (r: Result<(Identifier, usize), Error>)
    ensures
        match r {
            Ok((id, n)) => spec_decode_identifier(bytes@, der) == Ok::<(Identifier, int), Error>(
                (id, n as int),
            ) && 1 <= n <= bytes@.len(),
            Err(e) => spec_decode_identifier(bytes@, der) == Err::<(Identifier, int), Error>(e),
        },
{
    proof {
        lemma_identifier_end(bytes@, der);
    }
    if bytes.len() == 0 {
        return Err(Error::InvalidTag);
    }
    let b: u8 = bytes[0];
    let class = Class::from_bits(b / 64);
    let constructed = (b / 32) % 2 == 1;
    let low: u8 = b % 32;
    if low < 31 {
        return Ok((Identifier { class, constructed, tag: low as u32 }, 1));
    }
    match decode_tag_digits(bytes) {
        Err(e) => Err(e),
        Ok((t, end)) => {
            proof {
                lemma_tag_digits_end(bytes@, 1, 0);
            }
            if der && (bytes[1] == 128 || t < 31) {
                Err(Error::InvalidTag)
            } else {
                Ok((Identifier { class, constructed, tag: t }, end))
            }
        },
    }
}

/// Appends the base-128 digits of `n` to `out`.
fn push_tag_digits(n: u32, last: bool, out: &mut Vec<u8>) -> (k: usize)
    ensures
        final(out)@ == old(out)@ + spec_tag_digits_enc(n as nat, last),
        k == spec_tag_digits_enc(n as nat, last).len(),
        k <= 5,
    decreases n,
{
    proof {
        lemma_tag_digits_enc_len(n as nat, last);
    }
    let mut k: usize = 0;
    if n >= 128 {
        k = push_tag_digits(n / 128, false, out);
    }
    let flag: u8 = if last {
        0
    } else {
        128
    };
    let d: u8 = (n % 128) as u8 + flag;
    out.push(d);
    proof {
        assert(final(out)@ =~= old(out)@ + spec_tag_digits_enc(n as nat, last));
    }
    k + 1
}

/// Appends the canonical identifier octets of `id` to `out` and returns how
/// many they are.
pub fn write_identifier(id: &Identifier, out: &mut Vec<u8>) -> (k: usize)
    ensures
        final(out)@ == old(out)@ + spec_encode_identifier(*id),
        k == spec_encode_identifier(*id).len(),
        1 <= k <= 6,
{
    let flag: u8 = if id.constructed {
        32
    } else {
        0
    };
    let lead: u8 = id.class.bits() * 64 + flag;
    if id.tag < 31 {
        out.push(lead + id.tag as u8);
        proof {
            assert(final(out)@ =~= old(out)@ + spec_encode_identifier(*id));
        }
        1
    } else {
        out.push(lead + 31);
        let k = push_tag_digits(id.tag, true, out);
        proof {
            assert(final(out)@ =~= old(out)@ + spec_encode_identifier(*id));
        }
        k + 1
    }
}

/// How many octets the canonical identifier of `id` takes.
pub fn identifier_len(id: &Identifier) -> (k: usize)
    ensures
        k == spec_encode_identifier(*id).len(),
        1 <= k <= 6,
{
    proof {
        lemma_tag_digits_enc_len(id.tag as nat, true);
        reveal_with_fuel(spec_tag_digits_enc, 6);
    }
    if id.tag < 31 {
        1
    } else if id.tag < 128 {
        2
    } else if id.tag < 128 * 128 {
        3
    } else if id.tag < 128 * 128 * 128 {
        4
    } else if id.tag < 128 * 128 * 128 * 128 {
        5
    } else {
        6
    }
}

} // verus!
