//! Powers of two over the mathematical integers.

use vstd::prelude::*;

verus! {

/// Two to the power of `n`; one when `n` is not positive.
#[verifier::opaque]
pub open spec fn two_to(n: int) -> int
    decreases n,
{
    if n <= 0 {
        1
    } else {
        2 * two_to(n - 1)
    }
}

/// Peels one factor off a power of two.
pub proof fn lemma_two_to_step(n: int)
    ensures
        n > 0 ==> two_to(n) == 2 * two_to(n - 1),
        n <= 0 ==> two_to(n) == 1,
{
    reveal(two_to);
}

/// Every power of two is at least one.
pub proof fn lemma_two_to_positive(n: int)
    ensures
        two_to(n) >= 1,
    decreases n,
{
    reveal(two_to);
    if n > 0 {
        lemma_two_to_positive(n - 1);
    }
}

/// Exponents add when powers are multiplied.
pub proof fn lemma_two_to_adds(a: int, b: int)
    requires
        a >= 0,
        b >= 0,
    ensures
        two_to(a + b) == two_to(a) * two_to(b),
    decreases b,
{
    lemma_two_to_step(b);
    lemma_two_to_step(a + b);
    if b > 0 {
        lemma_two_to_adds(a, b - 1);
        let x = two_to(a);
        let y = two_to(b - 1);
        assert(2 * (x * y) == x * (2 * y)) by (nonlinear_arith);
    }
}

/// A larger exponent gives a power at least twice as large.
pub proof fn lemma_two_to_increases(a: int, b: int)
    requires
        0 <= a < b,
    ensures
        2 * two_to(a) <= two_to(b),
    decreases b,
{
    lemma_two_to_step(b);
    lemma_two_to_positive(b - 1);
    if a < b - 1 {
        lemma_two_to_increases(a, b - 1);
    }
}

/// The powers of two that the number format is built from.
pub proof fn lemma_two_to_values()
    ensures
        two_to(0) == 1,
        two_to(1) == 2,
        two_to(10) == 1024,
        two_to(11) == 2048,
        two_to(52) == 0x10_0000_0000_0000,
        two_to(53) == 0x20_0000_0000_0000,
        two_to(54) == 0x40_0000_0000_0000,
        two_to(55) == 0x80_0000_0000_0000,
        two_to(63) == 0x8000_0000_0000_0000,
        two_to(64) == 0x1_0000_0000_0000_0000,
        two_to(127) == 0x8000_0000_0000_0000_0000_0000_0000_0000,
{
    reveal_with_fuel(two_to, 14);
    assert(two_to(13) == 0x2000);
    lemma_two_to_adds(13, 13);
    lemma_two_to_adds(26, 26);
    lemma_two_to_adds(52, 1);
    lemma_two_to_adds(52, 2);
    lemma_two_to_adds(52, 3);
    lemma_two_to_adds(52, 11);
    lemma_two_to_adds(53, 11);
    lemma_two_to_adds(64, 63);
}

} // verus!
