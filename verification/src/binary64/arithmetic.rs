//! Correctly rounded arithmetic: each operation gives the number nearest to the exact result.

use vstd::prelude::*;

use crate::binary64::number::{lemma_signed_inverse, of, opposite, signed, Binary64, NAN};
use crate::binary64::powers::{
    lemma_two_to_adds, lemma_two_to_increases, lemma_two_to_positive, lemma_two_to_step,
    lemma_two_to_values, two_to,
};
use crate::binary64::rank::{
    lemma_magnitude_sign, lemma_magnitude_step, lemma_rank_bounds, lemma_rank_parts, level, magnitude,
    significand, BLOCK, INFINITE, SIGN,
};
use crate::binary64::rounding::{
    lemma_nearest_unique, midpoint, nearest, passes, round_scaled, scaled, Quantity,
};

verus! {

/// The number of smallest positive numbers in 1, as an exponent of two.
pub const UNIT_EXPONENT: i32 = 1074;

/// The number 1 in units of the smallest positive number.
pub open spec fn unity() -> int {
    two_to(1074)
}

/// The absolute value of an integer.
pub open spec fn distance(x: int) -> int {
    if x < 0 {
        -x
    } else {
        x
    }
}

/// `a + b`.
#[verifier::opaque]
pub open spec fn sum_of(a: Binary64, b: Binary64) -> Binary64 {
    if a.nan() || b.nan() || (a.infinite() && b.infinite() && a.negative() != b.negative()) {
        of(NAN)
    } else if a.infinite() {
        a
    } else if b.infinite() {
        b
    } else {
        let exact = a.value() + b.value();
        if exact == 0 {
            signed(a.negative() && b.negative(), 0)
        } else {
            signed(exact < 0, nearest(Quantity::Ratio { num: distance(exact), den: 1 }))
        }
    }
}

/// `a - b`.
pub open spec fn difference_of(a: Binary64, b: Binary64) -> Binary64 {
    sum_of(a, opposite(b))
}

/// `a * b`.
#[verifier::opaque]
pub open spec fn product_of(a: Binary64, b: Binary64) -> Binary64 {
    let negative = a.negative() != b.negative();
    if a.nan() || b.nan() || (a.infinite() && b.zero()) || (a.zero() && b.infinite()) {
        of(NAN)
    } else if a.infinite() || b.infinite() {
        signed(negative, INFINITE as int)
    } else {
        signed(
            negative,
            nearest(
                Quantity::Ratio { num: magnitude(a.rank()) * magnitude(b.rank()), den: unity() },
            ),
        )
    }
}

/// `a / b`.
#[verifier::opaque]
pub open spec fn quotient_of(a: Binary64, b: Binary64) -> Binary64 {
    let negative = a.negative() != b.negative();
    if a.nan() || b.nan() || (a.infinite() && b.infinite()) || (a.zero() && b.zero()) {
        of(NAN)
    } else if a.infinite() || b.zero() {
        signed(negative, INFINITE as int)
    } else if b.infinite() {
        signed(negative, 0)
    } else {
        signed(
            negative,
            nearest(Quantity::Ratio { num: magnitude(a.rank()) * unity(), den: magnitude(b.rank()) }),
        )
    }
}

/// The square root of `a`.
#[verifier::opaque]
pub open spec fn root_of(a: Binary64) -> Binary64 {
    if a.nan() || (a.negative() && !a.zero()) {
        of(NAN)
    } else if a.zero() || a.infinite() {
        a
    } else {
        signed(false, nearest(Quantity::Root { square: magnitude(a.rank()) * unity() }))
    }
}

/// The integer `n` as a number.
#[verifier::opaque]
pub open spec fn whole(n: int) -> Binary64 {
    signed(n < 0, nearest(Quantity::Ratio { num: distance(n) * unity(), den: 1 }))
}

/// The integer nearest to `a`, halves going up, brought into the range of `u64`. A NaN gives
/// zero.
pub open spec fn nearest_count(a: Binary64) -> int {
    if a.nan() || a.negative() {
        0
    } else {
        let n = (2 * a.value() + unity()) / (2 * unity());
        if n > u64::MAX {
            u64::MAX as int
        } else {
            n
        }
    }
}

/// A quotient with the scale that its integer part has.
proof fn lemma_scaled_ratio(num: int, den: int, m: int, e: int)
    requires
        den > 0,
        num * two_to(-e) == m * two_to(e) * den,
    ensures
        scaled(Quantity::Ratio { num, den }, m, e, false),
{
    let v = Quantity::Ratio { num, den };
    let up = two_to(e);
    let down = two_to(-e);
    lemma_two_to_positive(-e);
    assert forall|x: int|
        #![trigger v.above(x)]
        #![trigger v.meets(x)]
        {
            &&& v.above(x) <==> x * down < 2 * m * up
            &&& v.meets(x) <==> x * down == 2 * m * up
        } by {
        let l = x * den;
        let k = x * down;
        assert(l * down == k * den) by (nonlinear_arith)
            requires
                l == x * den,
                k == x * down,
        ;
        assert((2 * num) * down == (2 * m * up) * den) by (nonlinear_arith)
            requires
                num * down == m * up * den,
        ;
        let g = 2 * m * up;
        assert(l < 2 * num <==> k < g) by (nonlinear_arith)
            requires
                l * down == k * den,
                (2 * num) * down == g * den,
                down >= 1,
                den > 0,
        ;
        assert(l == 2 * num <==> k == g) by (nonlinear_arith)
            requires
                l * down == k * den,
                (2 * num) * down == g * den,
                down >= 1,
                den > 0,
        ;
    }
}

/// A quotient that lies between two scaled integers.
proof fn lemma_scaled_ratio_rest(num: int, den: int, m: int, e: int)
    requires
        den > 0,
        m * two_to(e) * den < num * two_to(-e) < (m + 1) * two_to(e) * den,
    ensures
        scaled(Quantity::Ratio { num, den }, m, e, true),
{
    let v = Quantity::Ratio { num, den };
    let up = two_to(e);
    let down = two_to(-e);
    lemma_two_to_positive(-e);
    assert forall|x: int|
        #![trigger v.above(x)]
        #![trigger v.meets(x)]
        {
            &&& x * down <= 2 * m * up ==> v.above(x)
            &&& x * down >= 2 * (m + 1) * up ==> !v.above(x) && !v.meets(x)
        } by {
        let l = x * den;
        let k = x * down;
        assert(l * down == k * den) by (nonlinear_arith)
            requires
                l == x * den,
                k == x * down,
        ;
        let lo = 2 * m * up;
        let hi = 2 * (m + 1) * up;
        assert(lo * den < (2 * num) * down < hi * den) by (nonlinear_arith)
            requires
                m * up * den < num * down < (m + 1) * up * den,
                lo == 2 * m * up,
                hi == 2 * (m + 1) * up,
        ;
        assert(k <= lo ==> l < 2 * num) by (nonlinear_arith)
            requires
                l * down == k * den,
                lo * den < (2 * num) * down,
                down >= 1,
                den > 0,
        ;
        assert(k >= hi ==> l > 2 * num) by (nonlinear_arith)
            requires
                l * down == k * den,
                (2 * num) * down < hi * den,
                down >= 1,
                den > 0,
        ;
    }
}

/// Adding less than a quarter of a unit in the last place changes nothing.
proof fn lemma_absorbed(rank: int, other: int, exact: int)
    requires
        0 < rank < INFINITE,
        level(rank) > 0,
        4 * distance(other) < two_to(level(rank)),
        exact == magnitude(rank) + other,
    ensures
        exact > 0,
        nearest(Quantity::Ratio { num: exact, den: 1 }) == rank,
{
    let t = level(rank);
    let v = Quantity::Ratio { num: exact, den: 1 };
    lemma_rank_bounds(rank);
    lemma_rank_bounds(rank - 1);
    lemma_magnitude_step(rank);
    lemma_magnitude_step(rank - 1);
    lemma_two_to_step(t);
    assert(level(rank - 1) == t || level(rank - 1) == t - 1) by {
        assert(rank / (BLOCK as int) == (rank - 1) / (BLOCK as int) || rank / (BLOCK as int) == (
        rank - 1) / (BLOCK as int) + 1);
    }
    lemma_two_to_positive(t - 1);
    let q = significand(rank);
    assert(magnitude(rank) >= two_to(t)) by (nonlinear_arith)
        requires
            magnitude(rank) == q * two_to(t),
            q >= 1,
            two_to(t) >= 1,
    ;
    assert(passes(v, rank - 1));
    assert(!passes(v, rank));
    lemma_nearest_unique(v, rank);
}

impl Binary64 {
    /// `self + other`.
    pub fn plus(self, other: Binary64) -> (r: Binary64)
        ensures
            r == sum_of(self, other),
    {
        proof {
            reveal(sum_of);
            lemma_signed_inverse(self);
            lemma_signed_inverse(other);
        }
        if self.is_nan() || other.is_nan() {
            return Binary64 { bits: NAN };
        }
        if !self.is_finite() {
            if !other.is_finite() && self.is_negative() != other.is_negative() {
                return Binary64 { bits: NAN };
            }
            return self;
        }
        if !other.is_finite() {
            return other;
        }
        let (q1, t1) = self.parts();
        let (q2, t2) = other.parts();
        if t1 >= t2 {
            plus_ordered(self, other, q1, t1, q2, t2)
        } else {
            plus_ordered(other, self, q2, t2, q1, t1)
        }
    }

    /// `self - other`.
    pub fn minus(self, other: Binary64) -> (r: Binary64)
        ensures
            r == difference_of(self, other),
    {
        self.plus(other.negated())
    }
}

/// The sum of two finite numbers, the one with the larger unit first.
fn plus_ordered(a: Binary64, b: Binary64, q1: u64, t1: u32, q2: u64, t2: u32) -> (r: Binary64)
    requires
        a.finite(),
        b.finite(),
        t1 >= t2,
        t1 <= 2045,
        q1 < 2 * BLOCK,
        q2 < 2 * BLOCK,
        t1 > 0 ==> q1 >= BLOCK,
        t1 == level(a.rank()),
        magnitude(a.rank()) == q1 * two_to(t1 as int),
        magnitude(b.rank()) == q2 * two_to(t2 as int),
    ensures
        r == sum_of(a, b),
{
    proof {
        reveal(sum_of);
    }
    let ghost exact = a.value() + b.value();
    let ghost x = magnitude(a.rank());
    let ghost y = magnitude(b.rank());
    proof {
        lemma_two_to_values();
        lemma_two_to_positive(t2 as int);
        lemma_signed_inverse(a);
        lemma_magnitude_sign(a.rank());
        lemma_magnitude_sign(b.rank());
    }
    let d: u32 = t1 - t2;
    if d >= 55 {
        proof {
            lemma_two_to_adds(t2 as int, d as int);
            if d > 55 {
                lemma_two_to_increases(55, d as int);
            }
            assert(4 * y < two_to(t1 as int)) by (nonlinear_arith)
                requires
                    y == q2 * two_to(t2 as int),
                    q2 < 2 * 0x10_0000_0000_0000,
                    two_to(t1 as int) == two_to(t2 as int) * two_to(d as int),
                    two_to(d as int) >= 0x80_0000_0000_0000,
                    two_to(t2 as int) >= 1,
            ;
            let other = if a.negative() == b.negative() {
                y
            } else {
                -y
            };
            lemma_absorbed(a.rank(), other, x + other);
        }
        return a;
    }
    let mut shift: u128 = 1;
    let mut k: u32 = 0;
    while k < d
        invariant
            k <= d,
            d < 55,
            shift == two_to(k as int),
            shift <= 0x80_0000_0000_0000,
        decreases d - k,
    {
        proof {
            lemma_two_to_step(k + 1);
            lemma_two_to_values();
            lemma_two_to_increases(k as int, 55);
        }
        shift = shift * 2;
        k = k + 1;
    }
    proof {
        assert(q1 * shift <= 0x20_0000_0000_0000 * 0x80_0000_0000_0000) by (nonlinear_arith)
            requires
                q1 < 2 * 0x10_0000_0000_0000,
                shift <= 0x80_0000_0000_0000,
        ;
        lemma_two_to_adds(t2 as int, d as int);
    }
    let m1: u128 = q1 as u128 * shift;
    let m2: u128 = q2 as u128;
    let ghost unit = two_to(t2 as int);
    proof {
        assert(x == m1 * unit) by (nonlinear_arith)
            requires
                x == q1 * (unit * shift),
                m1 == q1 * shift,
        ;
        assert(y == m2 * unit);
    }
    let (negative, m) = if a.is_negative() == b.is_negative() {
        proof {
            assert((m1 + m2) * unit == m1 * unit + m2 * unit) by (nonlinear_arith);
        }
        (a.is_negative(), m1 + m2)
    } else if m1 >= m2 {
        proof {
            assert((m1 - m2) * unit == m1 * unit - m2 * unit) by (nonlinear_arith);
        }
        (a.is_negative(), m1 - m2)
    } else {
        proof {
            assert((m2 - m1) * unit == m2 * unit - m1 * unit) by (nonlinear_arith);
        }
        (b.is_negative(), m2 - m1)
    };
    proof {
        assert(m == 0 <==> m * unit == 0) by (nonlinear_arith)
            requires
                unit >= 1,
        ;
        assert(m * unit >= 0) by (nonlinear_arith)
            requires
                unit >= 1,
                m >= 0,
        ;
    }
    if m == 0 {
        if a.is_negative() && b.is_negative() {
            return Binary64 { bits: SIGN };
        }
        return Binary64 { bits: 0 };
    }
    let ghost v = Quantity::Ratio { num: distance(exact), den: 1 };
    proof {
        assert(exact == (if negative {
            -(m * unit)
        } else {
            m * unit
        }));
        lemma_two_to_step(-(t2 as int));
        assert(distance(exact) * 1 == m * unit * 1) by (nonlinear_arith)
            requires
                distance(exact) == m * unit,
        ;
        lemma_scaled_ratio(distance(exact), 1, m as int, t2 as int);
    }
    let rank: u64 = round_scaled(m, t2 as i32, false, Ghost(v));
    if negative {
        Binary64 { bits: SIGN + rank }
    } else {
        Binary64 { bits: rank }
    }
}

/// A power of two times a power of two, the exponents of which may differ in sign.
proof fn lemma_powers_meet(a: int, b: int)
    requires
        a >= 0,
        b >= 0,
    ensures
        two_to(a) * two_to(b - a) == two_to(b) * two_to(a - b),
{
    if a >= b {
        lemma_two_to_adds(b, a - b);
        lemma_two_to_step(b - a);
    } else {
        lemma_two_to_adds(a, b - a);
        lemma_two_to_step(a - b);
    }
}

/// The number with the given sign and rank.
fn make(negative: bool, rank: u64) -> (r: Binary64)
    requires
        rank <= INFINITE,
    ensures
        r == signed(negative, rank as int),
{
    if negative {
        Binary64 { bits: SIGN + rank }
    } else {
        Binary64 { bits: rank }
    }
}

/// A positive significand brought to full width, with the number of places it was moved.
fn widen(q: u64) -> (r: (u64, u32))
    requires
        0 < q < 2 * BLOCK,
    ensures
        BLOCK <= r.0 < 2 * BLOCK,
        r.1 <= 52,
        r.0 == q * two_to(r.1 as int),
{
    let mut n: u64 = q;
    let mut k: u32 = 0;
    proof {
        lemma_two_to_values();
    }
    while n < BLOCK
        invariant
            0 < q,
            0 < n < 2 * BLOCK,
            k <= 52,
            n == q * two_to(k as int),
        decreases 53 - k,
    {
        proof {
            lemma_two_to_step(k + 1);
            lemma_two_to_values();
            let p = two_to(k as int);
            assert(q * (2 * p) == 2 * (q * p)) by (nonlinear_arith);
            if k >= 52 {
                assert(q * p >= p) by (nonlinear_arith)
                    requires
                        q > 0,
                        p >= 1,
                ;
                assert(false);
            }
        }
        n = n * 2;
        k = k + 1;
    }
    (n, k)
}

impl Binary64 {
    /// `self * other`.
    pub fn times(self, other: Binary64) -> (r: Binary64)
        ensures
            r == product_of(self, other),
    {
        proof {
            reveal(product_of);
        }
        let negative: bool = self.is_negative() != other.is_negative();
        if self.is_nan() || other.is_nan() {
            return Binary64 { bits: NAN };
        }
        if !self.is_finite() || !other.is_finite() {
            if self.rank_of() == 0 || other.rank_of() == 0 {
                return Binary64 { bits: NAN };
            }
            return make(negative, INFINITE);
        }
        let (q1, t1) = self.parts();
        let (q2, t2) = other.parts();
        proof {
            assert(q1 * q2 <= 0x20_0000_0000_0000 * 0x20_0000_0000_0000) by (nonlinear_arith)
                requires
                    q1 < 2 * 0x10_0000_0000_0000,
                    q2 < 2 * 0x10_0000_0000_0000,
            ;
        }
        let m: u128 = q1 as u128 * q2 as u128;
        let t: u32 = t1 + t2;
        let e: i32 = t as i32 - UNIT_EXPONENT;
        let ghost num = magnitude(self.rank()) * magnitude(other.rank());
        let ghost v = Quantity::Ratio { num, den: unity() };
        proof {
            lemma_two_to_positive(1074);
            lemma_two_to_adds(t1 as int, t2 as int);
            let p1 = two_to(t1 as int);
            let p2 = two_to(t2 as int);
            assert(num == m * two_to(t as int)) by (nonlinear_arith)
                requires
                    num == (q1 * p1) * (q2 * p2),
                    two_to(t as int) == p1 * p2,
                    m == q1 * q2,
            ;
            lemma_powers_meet(t as int, 1074);
            let up = two_to(e as int);
            let down = two_to(-e);
            let w = two_to(t as int);
            assert(num * down == m * up * unity()) by (nonlinear_arith)
                requires
                    num == m * w,
                    w * down == unity() * up,
            ;
            lemma_scaled_ratio(num, unity(), m as int, e as int);
            lemma_magnitude_sign(self.rank());
            lemma_magnitude_sign(other.rank());
            assert(num >= 0) by (nonlinear_arith)
                requires
                    num == magnitude(self.rank()) * magnitude(other.rank()),
                    magnitude(self.rank()) >= 0,
                    magnitude(other.rank()) >= 0,
            ;
        }
        let rank: u64 = round_scaled(m, e, false, Ghost(v));
        make(negative, rank)
    }

    /// `self / other`.
    pub fn over(self, other: Binary64) -> (r: Binary64)
        ensures
            r == quotient_of(self, other),
    {
        proof {
            reveal(quotient_of);
        }
        let negative: bool = self.is_negative() != other.is_negative();
        if self.is_nan() || other.is_nan() {
            return Binary64 { bits: NAN };
        }
        if !self.is_finite() {
            if !other.is_finite() {
                return Binary64 { bits: NAN };
            }
            return make(negative, INFINITE);
        }
        if other.rank_of() == 0 {
            if self.rank_of() == 0 {
                return Binary64 { bits: NAN };
            }
            return make(negative, INFINITE);
        }
        if !other.is_finite() {
            return make(negative, 0);
        }
        proof {
            lemma_magnitude_sign(self.rank());
            lemma_magnitude_sign(other.rank());
            lemma_two_to_positive(1074);
        }
        let (q1, t1) = self.parts();
        let (q2, t2) = other.parts();
        let ghost num = magnitude(self.rank()) * unity();
        let ghost den = magnitude(other.rank());
        let ghost v = Quantity::Ratio { num, den };
        proof {
            assert(num >= 0) by (nonlinear_arith)
                requires
                    num == magnitude(self.rank()) * unity(),
                    magnitude(self.rank()) >= 0,
                    unity() >= 1,
            ;
            assert(q2 > 0) by (nonlinear_arith)
                requires
                    den == q2 * two_to(t2 as int),
                    den > 0,
            ;
        }
        if self.rank_of() == 0 {
            proof {
                lemma_rank_bounds(0);
                lemma_rank_bounds(1);
                assert(num == 0) by (nonlinear_arith)
                    requires
                        num == magnitude(self.rank()) * unity(),
                        magnitude(self.rank()) == 0,
                ;
                assert(midpoint(0) * den > 0) by (nonlinear_arith)
                    requires
                        midpoint(0) == 1,
                        den > 0,
                ;
                lemma_nearest_unique(v, 0);
            }
            return make(negative, 0);
        }
        proof {
            assert(q1 > 0) by (nonlinear_arith)
                requires
                    magnitude(self.rank()) == q1 * two_to(t1 as int),
                    magnitude(self.rank()) > 0,
            ;
        }
        let (wide, k) = widen(q1);
        let top: u128 = wide as u128 * 0x1_0000_0000_0000_0000;
        let m: u128 = top / q2 as u128;
        let rem: u128 = top % q2 as u128;
        let e: i32 = t1 as i32 - k as i32 - 64 - t2 as i32 + UNIT_EXPONENT;
        proof {
            assert(top == m * q2 + rem) by (nonlinear_arith)
                requires
                    q2 > 0,
                    m == top / q2 as u128,
                    rem == top % q2 as u128,
            ;
            assert(m >= 2 * BLOCK) by (nonlinear_arith)
                requires
                    top == m * q2 + rem,
                    rem < q2,
                    q2 < 2 * BLOCK,
                    BLOCK == 0x10_0000_0000_0000,
                    top >= BLOCK * 0x1_0000_0000_0000_0000,
            ;
            assert(m <= top) by (nonlinear_arith)
                requires
                    top == m * q2 + rem,
                    rem >= 0,
                    q2 >= 1,
            ;
            lemma_two_to_values();
            let e1 = t1 + 1074;
            let e2 = t2 + k + 64;
            let w1 = two_to(e1);
            let w2 = two_to(e2);
            let up = two_to(e as int);
            let down = two_to(-e);
            let p2 = two_to(t2 as int);
            lemma_powers_meet(e1, e2);
            assert(num == q1 * w1) by {
                lemma_two_to_adds(t1 as int, 1074);
                let p1 = two_to(t1 as int);
                assert((q1 * p1) * unity() == q1 * (p1 * unity())) by (nonlinear_arith);
            }
            assert(q1 * w2 == top * p2) by {
                lemma_two_to_adds(t2 as int, k + 64);
                lemma_two_to_adds(k as int, 64);
                let pk = two_to(k as int);
                assert(q1 * (p2 * (pk * 0x1_0000_0000_0000_0000)) == ((q1 * pk)
                    * 0x1_0000_0000_0000_0000) * p2) by (nonlinear_arith);
            }
            // The quotient, brought to the scale of its integer part.
            assert(num * down == top * (p2 * up)) by (nonlinear_arith)
                requires
                    num == q1 * w1,
                    w1 * down == w2 * up,
                    q1 * w2 == top * p2,
            ;
            let g = p2 * up;
            lemma_two_to_positive(t2 as int);
            lemma_two_to_positive(e as int);
            assert(g >= 1) by (nonlinear_arith)
                requires
                    p2 >= 1,
                    up >= 1,
                    g == p2 * up,
            ;
            assert(m * up * den == m * q2 * g) by (nonlinear_arith)
                requires
                    den == q2 * p2,
                    g == p2 * up,
            ;
            assert((m + 1) * up * den == m * q2 * g + q2 * g) by (nonlinear_arith)
                requires
                    den == q2 * p2,
                    g == p2 * up,
            ;
            assert(top * g == m * q2 * g + rem * g) by (nonlinear_arith)
                requires
                    top == m * q2 + rem,
            ;
            if rem == 0 {
                lemma_scaled_ratio(num, den, m as int, e as int);
            } else {
                assert(0 < rem * g < q2 * g) by (nonlinear_arith)
                    requires
                        0 < rem < q2,
                        g >= 1,
                ;
                lemma_scaled_ratio_rest(num, den, m as int, e as int);
            }
        }
        let rank: u64 = round_scaled(m, e, rem != 0, Ghost(v));
        make(negative, rank)
    }

    /// The integer `n` as a number.
    pub fn from_count(n: u64) -> (r: Binary64)
        ensures
            r == whole(n as int),
    {
        proof {
            reveal(whole);
        }
        let ghost num = n * unity();
        proof {
            lemma_two_to_positive(1074);
            lemma_two_to_step(-1074);
            assert(num * 1 == n * unity() * 1);
            assert(num >= 0) by (nonlinear_arith)
                requires
                    num == n * unity(),
                    unity() >= 1,
                    n >= 0,
            ;
            lemma_scaled_ratio(num, 1, n as int, 1074);
        }
        let rank: u64 = round_scaled(
            n as u128,
            UNIT_EXPONENT,
            false,
            Ghost(Quantity::Ratio { num, den: 1 }),
        );
        Binary64 { bits: rank }
    }
}

/// The integer square root of `n`.
fn integer_root(n: u128) -> (r: u128)
    requires
        n < 0x1000_0000_0000_0000 * 0x1000_0000_0000_0000,
    ensures
        r * r <= n < (r + 1) * (r + 1),
        r < 0x1000_0000_0000_0000,
{
    let mut low: u128 = 0;
    let mut high: u128 = 0x1000_0000_0000_0000;
    while high - low > 1
        invariant
            low < high <= 0x1000_0000_0000_0000,
            low * low <= n < high * high,
        decreases high - low,
    {
        let mid: u128 = low + (high - low) / 2;
        proof {
            assert(mid * mid <= 0x1000_0000_0000_0000 * 0x1000_0000_0000_0000) by (nonlinear_arith)
                requires
                    0 <= mid <= 0x1000_0000_0000_0000,
            ;
        }
        if mid * mid <= n {
            low = mid;
        } else {
            high = mid;
        }
    }
    low
}

/// A square root that lies at a scaled integer, or between two.
proof fn lemma_scaled_root(n: int, root: int, h: int, rest: bool)
    requires
        h >= 0,
        root >= 0,
        !rest ==> n == root * root,
        rest ==> root * root < n < (root + 1) * (root + 1),
    ensures
        scaled(Quantity::Root { square: n * (two_to(h) * two_to(h)) }, root, h, rest),
{
    let up = two_to(h);
    let down = two_to(-h);
    lemma_two_to_step(-h);
    lemma_two_to_positive(h);
    let square = n * (up * up);
    let v = Quantity::Root { square };
    let lo = 2 * root * up;
    let hi = 2 * (root + 1) * up;
    assert(lo >= 0) by (nonlinear_arith)
        requires
            lo == 2 * root * up,
            root >= 0,
            up >= 1,
    ;
    assert(lo * lo == 4 * ((root * root) * (up * up))) by (nonlinear_arith)
        requires
            lo == 2 * root * up,
    ;
    assert(hi * hi == 4 * (((root + 1) * (root + 1)) * (up * up))) by (nonlinear_arith)
        requires
            hi == 2 * (root + 1) * up,
    ;
    let g = up * up;
    assert(g >= 1) by (nonlinear_arith)
        requires
            up >= 1,
            g == up * up,
    ;
    let low_square = root * root;
    let high_square = (root + 1) * (root + 1);
    assert(low_square < n ==> low_square * g < n * g) by (nonlinear_arith)
        requires
            g >= 1,
    ;
    assert(n < high_square ==> n * g < high_square * g) by (nonlinear_arith)
        requires
            g >= 1,
    ;
    assert(hi > lo) by (nonlinear_arith)
        requires
            lo == 2 * root * up,
            hi == 2 * (root + 1) * up,
            up >= 1,
    ;
    assert forall|x: int|
        #![trigger v.above(x)]
        #![trigger v.meets(x)]
        {
            &&& !rest ==> (v.above(x) <==> x * down < lo)
            &&& !rest ==> (v.meets(x) <==> x * down == lo)
            &&& rest && x * down <= lo ==> v.above(x)
            &&& rest && x * down >= hi ==> !v.above(x) && !v.meets(x)
        } by {
        assert(x * down == x) by (nonlinear_arith)
            requires
                down == 1,
        ;
        if x >= 0 {
            assert(x < lo ==> x * x < lo * lo) by (nonlinear_arith)
                requires
                    x >= 0,
            ;
            assert(x > lo ==> x * x > lo * lo) by (nonlinear_arith)
                requires
                    lo >= 0,
            ;
            assert(x >= hi ==> x * x >= hi * hi) by (nonlinear_arith)
                requires
                    hi > 0,
            ;
        }
    }
}

impl Binary64 {
    /// The square root.
    pub fn sqrt(self) -> (r: Binary64)
        ensures
            r == root_of(self),
    {
        proof {
            reveal(root_of);
        }
        if self.is_nan() || (self.is_negative() && self.rank_of() != 0) {
            return Binary64 { bits: NAN };
        }
        if self.rank_of() == 0 || !self.is_finite() {
            return self;
        }
        let (q, t) = self.parts();
        proof {
            lemma_magnitude_sign(self.rank());
            assert(q > 0) by (nonlinear_arith)
                requires
                    magnitude(self.rank()) == q * two_to(t as int),
                    magnitude(self.rank()) > 0,
            ;
        }
        let (wide, k) = widen(q);
        let odd: bool = (t + 1074 - k) % 2 != 0;
        let scale: u128 = if odd {
            0x2_0000_0000_0000_0000
        } else {
            0x1_0000_0000_0000_0000
        };
        let j: u32 = if odd {
            65
        } else {
            64
        };
        let n: u128 = wide as u128 * scale;
        let root: u128 = integer_root(n);
        let h: u32 = (t + 1074 - k - j) / 2;
        let rest: bool = root * root != n;
        let ghost square = magnitude(self.rank()) * unity();
        proof {
            lemma_two_to_values();
            lemma_two_to_step(65);
            assert(scale == two_to(j as int));
            assert(2 * h == t + 1074 - k - j);
            lemma_two_to_adds(t as int, 1074);
            lemma_two_to_adds(h as int, h as int);
            lemma_two_to_adds(k + j, 2 * h);
            lemma_two_to_adds(k as int, j as int);
            let p = two_to(t as int);
            let pk = two_to(k as int);
            let pj = two_to(j as int);
            let g = two_to(h as int) * two_to(h as int);
            assert(square == n * g) by (nonlinear_arith)
                requires
                    square == (q * p) * unity(),
                    p * unity() == (pk * pj) * g,
                    n == (q * pk) * pj,
            ;
            lemma_scaled_root(n as int, root as int, h as int, rest);
            lemma_two_to_positive(1074);
            assert(square >= 0) by (nonlinear_arith)
                requires
                    square == magnitude(self.rank()) * unity(),
                    magnitude(self.rank()) >= 0,
                    unity() >= 1,
            ;
            if root < 2 * BLOCK {
                assert((root + 1) * (root + 1) <= 0x20_0000_0000_0000 * 0x20_0000_0000_0000)
                    by (nonlinear_arith)
                    requires
                        0 <= root + 1 <= 0x20_0000_0000_0000,
                ;
                assert(n >= 0x10_0000_0000_0000 * 0x1_0000_0000_0000_0000);
                assert(false);
            }
        }
        let rank: u64 = round_scaled(root, h as i32, rest, Ghost(Quantity::Root { square }));
        Binary64 { bits: rank }
    }

    /// The nearest integer, halves going up, brought into the range of `u64`.
    pub fn to_count(self) -> (r: u64)
        ensures
            r == nearest_count(self),
    {
        if self.is_nan() || self.is_negative() {
            return 0;
        }
        proof {
            lemma_two_to_positive(1074);
            lemma_two_to_values();
        }
        if !self.is_finite() {
            proof {
                lemma_infinite_count();
            }
            return u64::MAX;
        }
        let (q, t) = self.parts();
        if t as i32 >= UNIT_EXPONENT {
            count_of_large(q, t - 1074, Ghost(self))
        } else {
            count_of_small(q, 1074 - t, Ghost(self))
        }
    }
}

/// The magnitude of infinity is out of range as a count.
proof fn lemma_infinite_count()
    ensures
        (2 * magnitude(INFINITE as int) + unity()) / (2 * unity()) > u64::MAX,
{
    lemma_rank_parts(2046, BLOCK as int);
    lemma_two_to_adds(1074, 972);
    lemma_two_to_values();
    lemma_two_to_increases(64, 972);
    lemma_two_to_positive(1074);
    let u = unity();
    let p = two_to(972);
    let m = magnitude(INFINITE as int);
    assert(m >= u * p) by (nonlinear_arith)
        requires
            m == 0x10_0000_0000_0000 * (u * p),
            u >= 1,
            p >= 1,
    ;
    assert((2 * m + u) / (2 * u) > u64::MAX) by (nonlinear_arith)
        requires
            m >= u * p,
            p >= 2 * 0x1_0000_0000_0000_0000,
            u >= 1,
    ;
}

/// The count of a number that is an integer already.
fn count_of_large(q: u64, d: u32, Ghost(x): Ghost<Binary64>) -> (r: u64)
    requires
        !x.nan(),
        !x.negative(),
        BLOCK <= q < 2 * BLOCK,
        d <= 971,
        magnitude(x.rank()) == q * two_to(d + 1074),
    ensures
        r == nearest_count(x),
{
    let ghost u = unity();
    proof {
        lemma_two_to_positive(1074);
        lemma_two_to_adds(d as int, 1074);
        let n = q * two_to(d as int);
        let m = x.value();
        assert(m == n * u) by (nonlinear_arith)
            requires
                m == q * (two_to(d as int) * u),
                n == q * two_to(d as int),
        ;
        assert((2 * m + u) / (2 * u) == n) by (nonlinear_arith)
            requires
                m == n * u,
                u >= 1,
        ;
        lemma_two_to_values();
    }
    if d >= 12 {
        proof {
            if d > 12 {
                lemma_two_to_increases(12, d as int);
            }
            lemma_two_to_step(12);
            assert(q * two_to(d as int) > u64::MAX) by (nonlinear_arith)
                requires
                    q >= 0x10_0000_0000_0000,
                    two_to(d as int) >= 4096,
            ;
        }
        return u64::MAX;
    }
    let mut n: u128 = q as u128;
    let mut k: u32 = 0;
    while k < d
        invariant
            k <= d,
            d < 12,
            q < 2 * BLOCK,
            n == q * two_to(k as int),
            two_to(k as int) <= 2048,
        decreases d - k,
    {
        proof {
            lemma_two_to_step(k + 1);
            lemma_two_to_values();
            if k + 1 < 11 {
                lemma_two_to_increases(k + 1, 11);
            }
            let p = two_to(k as int);
            lemma_two_to_positive(k as int);
            assert(q * (2 * p) == 2 * (q * p)) by (nonlinear_arith);
            assert(q * p <= 0x20_0000_0000_0000 * 2048) by (nonlinear_arith)
                requires
                    q < 2 * 0x10_0000_0000_0000,
                    p <= 2048,
                    p >= 0,
            ;
        }
        n = n * 2;
        k = k + 1;
    }
    if n > u64::MAX as u128 {
        u64::MAX
    } else {
        n as u64
    }
}

/// The count of a number with a unit below one.
fn count_of_small(q: u64, s: u32, Ghost(x): Ghost<Binary64>) -> (r: u64)
    requires
        !x.nan(),
        !x.negative(),
        q < 2 * BLOCK,
        0 < s <= 1074,
        magnitude(x.rank()) == q * two_to(1074 - s),
    ensures
        r == nearest_count(x),
{
    let ghost u = unity();
    let ghost p = two_to(1074 - s);
    let ghost unit_s = two_to(s as int);
    proof {
        lemma_two_to_positive(1074 - s);
        lemma_two_to_positive(s as int);
        lemma_two_to_adds(1074 - s, s as int);
        lemma_two_to_values();
        let m = x.value();
        assert((2 * m + u) / (2 * u) == (2 * q + unit_s) / (2 * unit_s)) by {
            assert(2 * m + u == (2 * q + unit_s) * p) by (nonlinear_arith)
                requires
                    m == q * p,
                    u == p * unit_s,
            ;
            assert(2 * u == (2 * unit_s) * p) by (nonlinear_arith)
                requires
                    u == p * unit_s,
            ;
            let a = 2 * q + unit_s;
            let b = 2 * unit_s;
            assert((a * p) / (b * p) == a / b) by {
                vstd::arithmetic::div_mod::lemma_div_multiples_vanish_quotient(p, a, b);
                assert(p * b == b * p && p * a == a * p) by (nonlinear_arith);
            }
        }
    }
    if s >= 55 {
        proof {
            if s > 55 {
                lemma_two_to_increases(55, s as int);
            }
            assert((2 * q + unit_s) / (2 * unit_s) == 0) by (nonlinear_arith)
                requires
                    0 <= 2 * q + unit_s < 2 * unit_s,
            ;
        }
        return 0;
    }
    let mut unit: u64 = 1;
    let mut k: u32 = 0;
    while k < s
        invariant
            k <= s,
            s < 55,
            unit == two_to(k as int),
            unit <= 0x80_0000_0000_0000,
        decreases s - k,
    {
        proof {
            lemma_two_to_step(k + 1);
            lemma_two_to_values();
            lemma_two_to_increases(k as int, 55);
        }
        unit = unit * 2;
        k = k + 1;
    }
    (2 * q + unit) / (2 * unit)
}

} // verus!
