//! The number type: classification, order and exact conversions.

use vstd::prelude::*;

use crate::binary64::powers::two_to;
use crate::binary64::rank::{
    lemma_magnitude_increases, lemma_magnitude_sign, lemma_rank_bounds, level, magnitude,
    significand, BLOCK, INFINITE, SIGN,
};

verus! {

/// The quiet NaN that arithmetic gives.
pub const NAN: u64 = 0x7FF8_0000_0000_0000;

/// The bits of 0.5.
pub const HALF: u64 = 0x3FE0_0000_0000_0000;

/// The bits of 1.
pub const ONE: u64 = 0x3FF0_0000_0000_0000;

/// The bits of 2.
pub const TWO: u64 = 0x4000_0000_0000_0000;

/// The bits of 100.
pub const HUNDRED: u64 = 0x4059_0000_0000_0000;

/// A binary64 number, held as its bits. The derived `==` compares bits; the comparisons of
/// numbers are the methods `equals`, `at_most` and `less`.
#[derive(Clone, Copy, Debug, PartialEq, Eq, Structural)]
pub struct Binary64 {
    pub bits: u64,
}

/// The number with the given bits.
pub open spec fn of(bits: u64) -> Binary64 {
    Binary64 { bits }
}

/// The number with the given sign and rank.
pub open spec fn signed(negative: bool, rank: int) -> Binary64 {
    of(
        (if negative {
            SIGN + rank
        } else {
            rank
        }) as u64,
    )
}

impl Binary64 {
    /// The sign bit is set.
    pub open spec fn negative(self) -> bool {
        self.bits >= SIGN
    }

    /// The place of the number among the non-negative ones, its sign left aside.
    pub open spec fn rank(self) -> int {
        self.bits as int % (SIGN as int)
    }

    /// Not a number.
    pub open spec fn nan(self) -> bool {
        self.rank() > INFINITE
    }

    /// Positive or negative infinity.
    pub open spec fn infinite(self) -> bool {
        self.rank() == INFINITE
    }

    /// Neither infinite nor NaN.
    pub open spec fn finite(self) -> bool {
        self.rank() < INFINITE
    }

    /// Positive or negative zero.
    pub open spec fn zero(self) -> bool {
        self.rank() == 0
    }

    /// The number in units of the smallest positive number. Infinity counts as two to the
    /// power of 1024, which orders it past every finite number.
    pub open spec fn value(self) -> int {
        if self.negative() {
            -magnitude(self.rank())
        } else {
            magnitude(self.rank())
        }
    }

    /// `<=` of numbers, false where a NaN takes part.
    pub open spec fn le(self, other: Binary64) -> bool {
        !self.nan() && !other.nan() && self.value() <= other.value()
    }

    /// `<` of numbers, false where a NaN takes part.
    pub open spec fn lt(self, other: Binary64) -> bool {
        !self.nan() && !other.nan() && self.value() < other.value()
    }

    /// `==` of numbers, false where a NaN takes part, true of the two zeros.
    pub open spec fn same(self, other: Binary64) -> bool {
        !self.nan() && !other.nan() && self.value() == other.value()
    }

    /// A number that is not a NaN and not below zero.
    pub open spec fn nonnegative(self) -> bool {
        !self.nan() && self.value() >= 0
    }

    /// Reads a number from its bits.
    pub fn from_bits(bits: u64) -> (r: Binary64)
        ensures
            r == of(bits),
    {
        Binary64 { bits }
    }

    /// The bits of the number.
    pub fn to_bits(self) -> (r: u64)
        ensures
            r == self.bits,
    {
        self.bits
    }

    /// Positive zero.
    pub fn zeroed() -> (r: Binary64)
        ensures
            r == of(0),
    {
        Binary64 { bits: 0 }
    }

    pub(crate) fn rank_of(self) -> (r: u64)
        ensures
            r == self.rank(),
            r < SIGN,
    {
        self.bits % SIGN
    }

    pub(crate) fn is_negative(self) -> (r: bool)
        ensures
            r == self.negative(),
    {
        self.bits >= SIGN
    }

    /// Whether the number is a NaN.
    pub fn is_nan(self) -> (r: bool)
        ensures
            r == self.nan(),
    {
        self.rank_of() > INFINITE
    }

    /// Whether the number is neither infinite nor NaN.
    pub fn is_finite(self) -> (r: bool)
        ensures
            r == self.finite(),
    {
        self.rank_of() < INFINITE
    }

    /// The rank with the sign of the number.
    fn key(self) -> (r: i128)
        ensures
            r == (if self.negative() {
                -self.rank()
            } else {
                self.rank()
            }),
    {
        let rank: u64 = self.rank_of();
        if self.is_negative() {
            -(rank as i128)
        } else {
            rank as i128
        }
    }

    /// Whether `self <= other`.
    pub fn at_most(self, other: Binary64) -> (r: bool)
        ensures
            r == self.le(other),
    {
        proof {
            lemma_key_orders(self, other);
        }
        !self.is_nan() && !other.is_nan() && self.key() <= other.key()
    }

    /// Whether `self < other`.
    pub fn less(self, other: Binary64) -> (r: bool)
        ensures
            r == self.lt(other),
    {
        proof {
            lemma_key_orders(other, self);
        }
        !self.is_nan() && !other.is_nan() && self.key() < other.key()
    }

    /// Whether `self == other` as numbers.
    pub fn equals(self, other: Binary64) -> (r: bool)
        ensures
            r == self.same(other),
    {
        self.at_most(other) && other.at_most(self)
    }

    /// The number with the sign turned over.
    pub fn negated(self) -> (r: Binary64)
        ensures
            r == opposite(self),
    {
        if self.bits >= SIGN {
            Binary64 { bits: self.bits - SIGN }
        } else {
            Binary64 { bits: self.bits + SIGN }
        }
    }

    /// The integer significand and the exponent of its unit.
    pub(crate) fn parts(self) -> (r: (u64, u32))
        requires
            self.finite(),
        ensures
            r.0 == significand(self.rank()),
            r.1 == level(self.rank()),
            r.0 < 2 * BLOCK,
            r.1 <= 2045,
            r.1 > 0 ==> r.0 >= BLOCK,
            magnitude(self.rank()) == r.0 * two_to(r.1 as int),
    {
        proof {
            lemma_rank_bounds(self.rank());
        }
        let rank: u64 = self.rank_of();
        let block: u64 = rank / BLOCK;
        let t: u64 = if block <= 1 {
            0
        } else {
            block - 1
        };
        (rank - t * BLOCK, t as u32)
    }
}

/// The number with the sign turned over.
pub open spec fn opposite(x: Binary64) -> Binary64 {
    signed(!x.negative(), x.rank())
}

/// Numbers are ordered as their signed ranks are.
pub proof fn lemma_key_orders(a: Binary64, b: Binary64)
    ensures
        ({
            let ka = if a.negative() {
                -a.rank()
            } else {
                a.rank()
            };
            let kb = if b.negative() {
                -b.rank()
            } else {
                b.rank()
            };
            a.value() <= b.value() <==> ka <= kb
        }),
{
    lemma_magnitude_sign(a.rank());
    lemma_magnitude_sign(b.rank());
    if a.rank() < b.rank() {
        lemma_magnitude_increases(a.rank(), b.rank());
    }
    if b.rank() < a.rank() {
        lemma_magnitude_increases(b.rank(), a.rank());
    }
}

/// Sign and rank of a number made from them.
pub proof fn lemma_signed(negative: bool, rank: int)
    requires
        0 <= rank < SIGN,
    ensures
        signed(negative, rank).negative() == negative,
        signed(negative, rank).rank() == rank,
        signed(negative, rank).value() == (if negative {
            -magnitude(rank)
        } else {
            magnitude(rank)
        }),
{
}

/// A number is made of its sign and rank.
pub proof fn lemma_signed_inverse(x: Binary64)
    ensures
        signed(x.negative(), x.rank()) == x,
        0 <= x.rank() < SIGN,
{
}

/// The sign of a number's value.
pub proof fn lemma_value_sign(x: Binary64)
    ensures
        x.value() == 0 <==> x.zero(),
        x.value() > 0 ==> !x.negative(),
        x.value() < 0 ==> x.negative(),
        !x.negative() ==> x.value() >= 0,
        x.negative() ==> x.value() <= 0,
{
    lemma_magnitude_sign(x.rank());
}

/// Turning the sign over negates the value.
pub proof fn lemma_opposite(x: Binary64)
    ensures
        opposite(x).value() == -x.value(),
        opposite(x).rank() == x.rank(),
        opposite(x).negative() == !x.negative(),
        opposite(opposite(x)) == x,
{
    lemma_signed_inverse(x);
    lemma_signed(!x.negative(), x.rank());
}

} // verus!
