//! The class of a tag: the two high bits of the first identifier octet.

use vstd::prelude::*;

verus! {

/// The four classes of X.690. A tag number means something only together
/// with its class.
#[derive(Clone, Copy, Debug, PartialEq, Eq, Structural)]
pub enum Class {
    Universal,
    Application,
    ContextSpecific,
    Private,
}

impl Class {
    /// The class as the number that its two bits spell.
    pub open spec fn spec_bits(self) -> u8 {
        match self {
            Class::Universal => 0,
            Class::Application => 1,
            Class::ContextSpecific => 2,
            Class::Private => 3,
        }
    }

    /// The class that the two low bits of `b` spell.
    pub open spec fn spec_from_bits(b: u8) -> Class {
        if b % 4 == 0 {
            Class::Universal
        } else if b % 4 == 1 {
            Class::Application
        } else if b % 4 == 2 {
            Class::ContextSpecific
        } else {
            Class::Private
        }
    }

    /// The class as the number that its two bits spell.
    #[verifier::when_used_as_spec(spec_bits)]
    pub fn bits(self) -> (b: u8)
        ensures
            b == self.spec_bits(),
            b < 4,
    {
        match self {
            Class::Universal => 0,
            Class::Application => 1,
            Class::ContextSpecific => 2,
            Class::Private => 3,
        }
    }

    /// The class that the two low bits of `b` spell.
    #[verifier::when_used_as_spec(spec_from_bits)]
    pub fn from_bits(b: u8) -> (c: Class)
        ensures
            c == Class::spec_from_bits(b),
    {
        let low: u8 = b % 4;
        if low == 0 {
            Class::Universal
        } else if low == 1 {
            Class::Application
        } else if low == 2 {
            Class::ContextSpecific
        } else {
            Class::Private
        }
    }

    /// Reading back the bits of a class gives the class.
    pub proof fn lemma_bits_roundtrip(self)
        ensures
            Class::spec_from_bits(self.spec_bits()) == self,
    {
    }
}

} // verus!
