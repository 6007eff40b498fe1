//! Work on byte slices, and the two calls that leave this crate: one into
//! `nom`, to split content off the input, and one into the standard
//! library, to check UTF-8. Their contracts are stated here and not proved.

use crate::error::Needed;
use vstd::prelude::*;
use vstd::string::StringSliceAdditionalSpecFns;
use vstd::utf8::valid_utf8;

verus! {

/// Splits the first `n` bytes off `input` with `nom::bytes::streaming::take`.
///
/// The contract is that of `take` on a byte slice: where `input` has `n`
/// bytes or more, the result is what is left and the first `n` bytes; where
/// it has fewer, the parser is incomplete by the number of bytes that are
/// missing, which is not zero.
#[verifier::external_body]
pub(crate) fn take_bytes<'a>(input: &'a [u8], n: usize) -> (r: Result<(&'a [u8], &'a [u8]), Needed>)
    ensures
        match r {
            Ok((rest, taken)) => n <= input@.len() && taken@ == input@.subrange(0, n as int)
                && rest@ == input@.subrange(n as int, input@.len() as int),
            Err(needed) => n > input@.len() && needed == Needed::Size(
                (n - input@.len()) as usize,
            ),
        },
{
    match nom::bytes::streaming::take::<usize, &[u8], ()>(n)(input) {
        Ok((rest, taken)) => Ok((rest, taken)),
        Err(nom::Err::Incomplete(nom::Needed::Size(k))) => Err(Needed::Size(k.get())),
        Err(_) => Err(Needed::Unknown),
    }
}

/// Reads `bytes` as a string with `core::str::from_utf8`.
///
/// The contract is that the call succeeds on well-formed UTF-8 and on
/// nothing else, and that the string it gives is made of the bytes it was
/// given.
#[verifier::external_body]
pub(crate) fn str_from_utf8<'a>(bytes: &'a [u8]) -> (r: Option<&'a str>)
    ensures
        match r {
            Some(s) => valid_utf8(bytes@) && s.spec_bytes() == bytes@,
            None => !valid_utf8(bytes@),
        },
{
    match core::str::from_utf8(bytes) {
        Ok(s) => Some(s),
        Err(_) => None,
    }
}

/// Appends `bytes` to `out` and returns how many they are.
pub fn append_bytes(out: &mut Vec<u8>, bytes: &[u8]) -> (k: usize)
    ensures
        final(out)@ == old(out)@ + bytes@,
        k == bytes@.len(),
{
    let mut i: usize = 0;
    while i < bytes.len()
        invariant
            i <= bytes@.len(),
            out@ == old(out)@ + bytes@.subrange(0, i as int),
        decreases bytes@.len() - i,
    {
        out.push(bytes[i]);
        i = i + 1;
        proof {
            assert(out@ =~= old(out)@ + bytes@.subrange(0, i as int));
        }
    }
    proof {
        assert(bytes@.subrange(0, i as int) =~= bytes@);
    }
    i
}

} // verus!
