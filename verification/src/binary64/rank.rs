//! Magnitudes of binary64 numbers, in order.
//!
//! The low sixty-three bits of a number, read as an integer, are its rank: the
//! non-negative numbers in increasing order have ranks 0, 1, 2 and so on up to infinity.
//! A magnitude is measured in units of the smallest positive number, two to the power of
//! minus 1074, so every finite magnitude is an integer.

use vstd::prelude::*;

use crate::binary64::powers::{
    lemma_two_to_positive, lemma_two_to_step, lemma_two_to_values, two_to,
};

verus! {

/// Number of ranks that share one exponent: two to the power of 52.
pub const BLOCK: u64 = 0x10_0000_0000_0000;

/// The rank of infinity.
pub const INFINITE: u64 = 0x7FF0_0000_0000_0000;

/// Weight of the sign bit.
pub const SIGN: u64 = 0x8000_0000_0000_0000;

/// The exponent of the unit in the last place at rank `r`, counted from the smallest one.
pub open spec fn level(r: int) -> int {
    if r / (BLOCK as int) <= 1 {
        0
    } else {
        r / (BLOCK as int) - 1
    }
}

/// The integer significand at rank `r`.
pub open spec fn significand(r: int) -> int {
    r - level(r) * BLOCK
}

/// The magnitude at rank `r`. The rank of infinity gets the magnitude that the next finite
/// number would have if the exponent range went on.
#[verifier::opaque]
pub open spec fn magnitude(r: int) -> int {
    significand(r) * two_to(level(r))
}

/// Level and significand of the rank that they make up.
pub proof fn lemma_rank_parts(t: int, q: int)
    requires
        t >= 0,
        0 <= q < 2 * BLOCK,
        t > 0 ==> q >= BLOCK,
    ensures
        level(t * BLOCK + q) == t,
        significand(t * BLOCK + q) == q,
        magnitude(t * BLOCK + q) == q * two_to(t),
{
    reveal(magnitude);
    let r = t * BLOCK + q;
    if q < BLOCK {
        assert(r / (BLOCK as int) == 0);
    } else {
        assert(r / (BLOCK as int) == t + 1) by (nonlinear_arith)
            requires
                r == t * 0x10_0000_0000_0000 + q,
                BLOCK == 0x10_0000_0000_0000,
                BLOCK <= q < 2 * BLOCK,
        ;
    }
}

/// Bounds on level and significand of a rank.
pub proof fn lemma_rank_bounds(r: int)
    requires
        r >= 0,
    ensures
        level(r) >= 0,
        0 <= significand(r) < 2 * BLOCK,
        level(r) > 0 ==> significand(r) >= BLOCK,
        r == level(r) * BLOCK + significand(r),
        r < INFINITE ==> level(r) <= 2045,
        level(r) == 0 ==> magnitude(r) == r,
        magnitude(r) == significand(r) * two_to(level(r)),
{
    reveal(magnitude);
    lemma_two_to_values();
    assert(r == (r / (BLOCK as int)) * BLOCK + r % (BLOCK as int)) by (nonlinear_arith);
}

/// Going up one rank adds one unit in the last place.
pub proof fn lemma_magnitude_step(r: int)
    requires
        r >= 0,
    ensures
        magnitude(r + 1) == magnitude(r) + two_to(level(r)),
        magnitude(r + 1) > magnitude(r),
{
    let t = level(r);
    let q = significand(r);
    lemma_rank_bounds(r);
    lemma_two_to_positive(t);
    if q + 1 < 2 * BLOCK {
        lemma_rank_parts(t, q + 1);
        assert((q + 1) * two_to(t) == q * two_to(t) + two_to(t)) by (nonlinear_arith);
    } else {
        lemma_rank_parts(t + 1, BLOCK as int);
        lemma_two_to_step(t + 1);
        let p = two_to(t);
        assert(BLOCK * (2 * p) == q * p + p) by (nonlinear_arith)
            requires
                q + 1 == 2 * BLOCK,
        ;
    }
}

/// Magnitudes increase strictly with rank.
pub proof fn lemma_magnitude_increases(a: int, b: int)
    requires
        0 <= a < b,
    ensures
        magnitude(a) < magnitude(b),
    decreases b,
{
    lemma_magnitude_step(b - 1);
    if a < b - 1 {
        lemma_magnitude_increases(a, b - 1);
    }
}

/// Magnitudes are not negative, and only rank zero has magnitude zero.
pub proof fn lemma_magnitude_sign(r: int)
    requires
        r >= 0,
    ensures
        magnitude(r) >= 0,
        magnitude(r) == 0 <==> r == 0,
{
    lemma_rank_bounds(0);
    if r > 0 {
        lemma_magnitude_increases(0, r);
    }
}

} // verus!
