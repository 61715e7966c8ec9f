use vstd::prelude::*;

verus! {

/// The bit that stands for a flag: 1 for `true`, 0 for `false`.
pub open spec fn bit_of(b: bool) -> usize {
    if b {
        1
    } else {
        0
    }
}

/// Conversion of a value to a single bit.
pub trait ToBit {
    spec fn bit_spec(&self) -> usize;

    fn to_bit(&self) -> (r: usize)
        ensures
            r == self.bit_spec(),
            r <= 1,
    ;
}

impl ToBit for bool {
    open spec fn bit_spec(&self) -> usize {
        bit_of(*self)
    }

    fn to_bit(&self) -> (r: usize) {
        if *self {
            1
        } else {
            0
        }
    }
}

/// Conversion of a word to a value: any non-zero word is set.
pub trait FromBit: Sized {
    spec fn from_bit_spec(v: usize) -> Self;

    fn from_bit(v: usize) -> (r: Self)
        ensures
            r == Self::from_bit_spec(v),
    ;
}

impl FromBit for bool {
    open spec fn from_bit_spec(v: usize) -> bool {
        v != 0
    }

    fn from_bit(v: usize) -> (r: bool) {
        if v == 0 {
            false
        } else {
            true
        }
    }
}

/// Reading back a flag's bit gives the flag.
pub proof fn lemma_bit_round_trip(b: bool)
    ensures
        <bool as FromBit>::from_bit_spec(<bool as ToBit>::bit_spec(&b)) == b,
{
}

} // verus!
