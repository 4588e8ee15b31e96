//! Real numbers as this library holds them.
//!
//! The library neither computes with real numbers nor prints them. It holds a
//! number as the two things that it needs of it: the 64 bits of the number
//! in the binary format of IEEE 754, which tell where it stands among the
//! others, and its text, which a document shows.

use vstd::prelude::*;
use vstd::string::*;

verus! {

/// A real number: a measured value, a sum of such, or the upper bound of a
/// bucket.
#[derive(Clone, Debug)]
pub struct Number {
    /// The number in the binary format of 64 bits: the sign in the highest
    /// bit, the magnitude in the others.
    pub bits: u64,
    /// The number as a document shows it.
    pub text: String,
}

/// The bits of the largest number that is not infinite. As the bound of a
/// bucket that number stands for no bound at all.
pub const LARGEST_FINITE: u64 = 0x7FEF_FFFF_FFFF_FFFF;

/// Where the number with the bits `bits` stands among all numbers: of two
/// numbers the smaller one has the smaller rank, and the two zeros have the
/// same. It is the magnitude, below zero where the sign is set.
pub open spec fn rank_of(bits: u64) -> i64 {
    if bits < 0x8000_0000_0000_0000 {
        bits as i64
    } else {
        (0x8000_0000_0000_0000 - bits) as i64
    }
}

impl Number {
    /// Where the number stands among all numbers.
    pub open spec fn spec_rank(&self) -> i64 {
        rank_of(self.bits)
    }

    /// The number with the bits `bits` that is written `text`.
    pub fn new(bits: u64, text: &str) -> (number: Number)
        ensures
            number.bits == bits,
            number.text@ == text@,
    {
        Number { bits, text: text.to_owned() }
    }

    /// The number zero, written `0`.
    pub fn zero() -> (number: Number)
        ensures
            number.bits == 0,
            vstd::utf8::encode_utf8(number.text@) == seq![48u8],
    {
        let zero = "0";
        proof {
            reveal_strlit("0");
            assert(is_ascii(zero));
            is_ascii_spec_bytes(zero);
            assert(zero.spec_bytes() =~= seq![48u8]);
        }
        Number { bits: 0, text: zero.to_owned() }
    }

    /// Where the number stands among all numbers.
    #[verifier::when_used_as_spec(spec_rank)]
    pub fn rank(&self) -> (rank: i64)
        ensures
            rank == rank_of(self.bits),
    {
        if self.bits < 0x8000_0000_0000_0000 {
            self.bits as i64
        } else {
            let magnitude: u64 = self.bits - 0x8000_0000_0000_0000;
            -(magnitude as i64)
        }
    }

    /// Whether the number is `other` or smaller.
    pub fn at_most(&self, other: &Number) -> (yes: bool)
        ensures
            yes == (self.rank() <= other.rank()),
    {
        self.rank() <= other.rank()
    }
}

/// The upper bound of a bucket: a number, or no bound at all.
#[derive(Clone, Debug)]
pub enum Bound {
    /// The bucket takes every value up to and including this number.
    Finite(Number),
    /// The bucket takes every value.
    Infinite,
}

/// The text of the bound that bounds nothing: `+Inf`.
pub open spec fn infinity() -> Seq<u8> {
    seq![43u8, 73u8, 110u8, 102u8]
}

impl Bound {
    /// Whether a value of rank `rank` lies within the bound.
    pub open spec fn covers(&self, rank: i64) -> bool {
        match self {
            Bound::Finite(limit) => rank <= limit.rank(),
            Bound::Infinite => true,
        }
    }

    /// Whether every value within this bound lies within `other` too.
    pub open spec fn at_most(&self, other: &Bound) -> bool {
        match (self, other) {
            (_, Bound::Infinite) => true,
            (Bound::Finite(a), Bound::Finite(b)) => a.rank() <= b.rank(),
            (Bound::Infinite, Bound::Finite(_)) => false,
        }
    }

    /// The bound as the value of a bucket label: the text of the number, or
    /// `+Inf`.
    pub open spec fn label(&self) -> Seq<u8> {
        match self {
            Bound::Finite(limit) => vstd::utf8::encode_utf8(limit.text@),
            Bound::Infinite => infinity(),
        }
    }

    /// The bound that `limit` is: no bound where it is the largest number
    /// that is not infinite, or stands above it, and else the number itself.
    pub fn of(limit: Number) -> (bound: Bound)
        ensures
            bound == (if limit.rank() >= rank_of(LARGEST_FINITE) {
                Bound::Infinite
            } else {
                Bound::Finite(limit)
            }),
    {
        if limit.rank() >= 0x7FEF_FFFF_FFFF_FFFF {
            Bound::Infinite
        } else {
            Bound::Finite(limit)
        }
    }

    /// Whether `value` lies within the bound.
    pub fn holds(&self, value: &Number) -> (within: bool)
        ensures
            within == self.covers(value.rank()),
    {
        match self {
            Bound::Finite(limit) => value.at_most(limit),
            Bound::Infinite => true,
        }
    }

    /// Whether the bound bounds nothing.
    pub fn is_infinite(&self) -> (infinite: bool)
        ensures
            infinite == (self is Infinite),
    {
        match self {
            Bound::Finite(_) => false,
            Bound::Infinite => true,
        }
    }

    /// The bound as the value of a bucket label.
    pub fn as_str(&self) -> (text: &str)
        ensures
            text.spec_bytes() == self.label(),
    {
        match self {
            Bound::Finite(limit) => limit.text.as_str(),
            Bound::Infinite => {
                proof {
                    reveal_strlit("+Inf");
                    assert(is_ascii("+Inf"));
                    is_ascii_spec_bytes("+Inf");
                    assert("+Inf".spec_bytes() =~= infinity());
                }
                "+Inf"
            },
        }
    }
}

} // verus!
