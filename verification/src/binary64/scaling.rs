//! Multiplying by a power of two: rounding takes no notice of it.

use vstd::prelude::*;

use crate::binary64::arithmetic::{distance, product_of, quotient_of, sum_of, unity, whole};
use crate::binary64::laws::{law_exact_quotient_is_kept, law_rounding_keeps_order, lemma_constants};
use crate::binary64::number::{lemma_signed, Binary64};
use crate::binary64::powers::{
    lemma_two_to_adds, lemma_two_to_positive, lemma_two_to_step, lemma_two_to_values, two_to,
};
use crate::binary64::rank::{
    lemma_magnitude_increases, lemma_magnitude_sign, lemma_rank_bounds, lemma_rank_parts, level,
    magnitude, significand, BLOCK, INFINITE,
};
use crate::binary64::rounding::{
    is_nearest, lemma_nearest_exists, lemma_nearest_unique, lemma_passes_smaller, midpoint, nearest,
    passes, Quantity,
};

verus! {

/// `y` is `x` times two to the power of `j`, and both are finite.
pub open spec fn scales(x: Binary64, y: Binary64, j: int) -> bool {
    &&& x.finite()
    &&& y.finite()
    &&& x.negative() == y.negative()
    &&& y.value() == two_to(j) * x.value()
}

/// A quotient that does not underflow: it is not below the numbers of full precision, or it is a
/// number of the format.
pub open spec fn unharmed(num: int, den: int) -> bool {
    ||| BLOCK * den <= num
    ||| num == magnitude(nearest(Quantity::Ratio { num, den })) * den
}

/// A product that does not underflow.
pub open spec fn product_unharmed(a: Binary64, b: Binary64) -> bool {
    unharmed(magnitude(a.rank()) * magnitude(b.rank()), unity())
}

/// The rank of twice the magnitude.
spec fn twice(r: int) -> int {
    if r < BLOCK {
        2 * r
    } else {
        r + BLOCK
    }
}

/// Twice a magnitude is the magnitude at the doubled rank.
proof fn lemma_twice(r: int)
    requires
        r >= 0,
    ensures
        magnitude(twice(r)) == 2 * magnitude(r),
{
    lemma_rank_bounds(r);
    lemma_rank_bounds(2 * r);
    lemma_two_to_values();
    if r >= BLOCK {
        let t = level(r);
        let q = significand(r);
        assert(q >= BLOCK);
        lemma_rank_parts(t + 1, q);
        lemma_two_to_step(t + 1);
        let p = two_to(t);
        assert(q * (2 * p) == 2 * (q * p)) by (nonlinear_arith);
        assert((t + 1) * BLOCK + q == r + BLOCK) by (nonlinear_arith)
            requires
                r == t * BLOCK + q,
        ;
    }
}

/// Rounding takes no notice of a factor of two.
proof fn lemma_nearest_doubled(num: int, den: int)
    requires
        num >= 0,
        den > 0,
        unharmed(num, den),
        nearest(Quantity::Ratio { num: 2 * num, den }) < INFINITE,
    ensures
        magnitude(nearest(Quantity::Ratio { num: 2 * num, den })) == 2 * magnitude(
            nearest(Quantity::Ratio { num, den }),
        ),
{
    let v = Quantity::Ratio { num, den };
    let w = Quantity::Ratio { num: 2 * num, den };
    let r = nearest(v);
    let m = magnitude(r);
    lemma_nearest_exists(v);
    lemma_nearest_exists(w);
    lemma_twice(r);
    if num == m * den {
        assert(2 * num == (2 * m) * den) by (nonlinear_arith)
            requires
                num == m * den,
        ;
        if twice(r) <= INFINITE {
            law_exact_quotient_is_kept(2 * num, den, twice(r));
        } else {
            let top = magnitude(INFINITE as int);
            lemma_magnitude_increases(INFINITE as int, twice(r));
            assert(top * den <= (2 * num) * 1) by (nonlinear_arith)
                requires
                    top <= 2 * m,
                    num == m * den,
                    den > 0,
            ;
            assert(top * 1 == top);
            lemma_magnitude_sign(INFINITE as int);
            law_exact_quotient_is_kept(top, 1, INFINITE as int);
            law_rounding_keeps_order(top, 1, 2 * num, den);
        }
    } else {
        // The smallest number of full precision bounds the rank from below, before and after.
        lemma_rank_bounds(BLOCK as int);
        lemma_rank_parts(1, BLOCK as int);
        lemma_two_to_values();
        law_exact_quotient_is_kept(BLOCK as int, 1, BLOCK as int);
        law_rounding_keeps_order(BLOCK as int, 1, num, den);
        assert(r >= BLOCK);
        let s = r + BLOCK;
        lemma_twice(r + 1);
        assert(midpoint(s) == 2 * midpoint(r));
        let mid = midpoint(r);
        assert((2 * mid) * den == 2 * (mid * den)) by (nonlinear_arith);
        assert(passes(w, s) == passes(v, r));
        if r == BLOCK {
            law_exact_quotient_is_kept(2 * BLOCK, 1, 2 * BLOCK);
            assert((2 * BLOCK) * den <= (2 * num) * 1) by (nonlinear_arith)
                requires
                    BLOCK * den <= num,
            ;
            law_rounding_keeps_order(2 * BLOCK, 1, 2 * num, den);
            if nearest(w) > s {
                lemma_passes_smaller(w, s, nearest(w) - 1);
                assert(r < INFINITE);
            }
        } else {
            lemma_twice(r - 1);
            let low = midpoint(r - 1);
            assert(midpoint(s - 1) == 2 * low);
            assert((2 * low) * den == 2 * (low * den)) by (nonlinear_arith);
            assert(passes(w, s - 1));
            if r == INFINITE {
                lemma_passes_smaller(w, INFINITE - 1, s - 1);
                assert(is_nearest(w, INFINITE as int));
                lemma_nearest_unique(w, INFINITE as int);
            } else if s > INFINITE {
                lemma_passes_smaller(w, INFINITE - 1, s - 1);
                lemma_nearest_unique(w, INFINITE as int);
            } else {
                lemma_nearest_unique(w, s);
            }
        }
    }
}

/// Rounding takes no notice of a power of two.
pub proof fn law_rounding_ignores_powers_of_two(num: int, den: int, j: int)
    requires
        num >= 0,
        den > 0,
        j >= 0,
        unharmed(num, den),
        nearest(Quantity::Ratio { num: two_to(j) * num, den }) < INFINITE,
    ensures
        magnitude(nearest(Quantity::Ratio { num: two_to(j) * num, den })) == two_to(j) * magnitude(
            nearest(Quantity::Ratio { num, den }),
        ),
        unharmed(two_to(j) * num, den),
        nearest(Quantity::Ratio { num, den }) < INFINITE,
    decreases j,
{
    lemma_two_to_step(j);
    lemma_two_to_positive(j);
    let m = magnitude(nearest(Quantity::Ratio { num, den }));
    if j == 0 {
        assert(1 * num == num && 1 * m == m);
    } else {
        let p = two_to(j - 1);
        lemma_two_to_positive(j - 1);
        let half = p * num;
        assert((2 * p) * num == 2 * half) by (nonlinear_arith)
            requires
                half == p * num,
        ;
        assert(half >= 0) by (nonlinear_arith)
            requires
                half == p * num,
                p >= 1,
                num >= 0,
        ;
        assert(half * den <= (2 * half) * den) by (nonlinear_arith)
            requires
                half >= 0,
                den > 0,
        ;
        law_rounding_keeps_order(half, den, 2 * half, den);
        law_rounding_ignores_powers_of_two(num, den, j - 1);
        lemma_nearest_doubled(half, den);
        assert(2 * (p * m) == (2 * p) * m) by (nonlinear_arith);
        let n = magnitude(nearest(Quantity::Ratio { num: half, den }));
        if half == n * den {
            assert(2 * half == (2 * n) * den) by (nonlinear_arith)
                requires
                    half == n * den,
            ;
        }
    }
}

/// A scaled sum is the sum of the scaled terms.
pub proof fn law_scaled_sum(a: Binary64, b: Binary64, c: Binary64, d: Binary64, j: int)
    requires
        j >= 0,
        scales(a, c, j),
        scales(b, d, j),
        sum_of(c, d).finite(),
    ensures
        scales(sum_of(a, b), sum_of(c, d), j),
{
    reveal(sum_of);
    let f = two_to(j);
    lemma_two_to_positive(j);
    let x = a.value() + b.value();
    let y = c.value() + d.value();
    assert(y == f * x) by (nonlinear_arith)
        requires
            y == f * a.value() + f * b.value(),
            x == a.value() + b.value(),
    ;
    assert(x == 0 ==> y == 0) by (nonlinear_arith)
        requires
            y == f * x,
    ;
    assert(x > 0 ==> y > 0) by (nonlinear_arith)
        requires
            y == f * x,
            f >= 1,
    ;
    assert(x < 0 ==> y < 0) by (nonlinear_arith)
        requires
            y == f * x,
            f >= 1,
    ;
    if x == 0 {
        lemma_signed(a.negative() && b.negative(), 0);
        lemma_rank_bounds(0);
        assert(f * 0 == 0);
    } else {
        let v = Quantity::Ratio { num: distance(x), den: 1 };
        let w = Quantity::Ratio { num: distance(y), den: 1 };
        assert(distance(y) == f * distance(x)) by (nonlinear_arith)
            requires
                y == f * x,
                x > 0 && y > 0 && distance(x) == x && distance(y) == y || x < 0 && y < 0
                    && distance(x) == -x && distance(y) == -y,
        ;
        if distance(x) < BLOCK {
            lemma_rank_bounds(distance(x));
            law_exact_quotient_is_kept(distance(x), 1, distance(x));
        }
        lemma_nearest_exists(w);
        lemma_signed(y < 0, nearest(w));
        law_rounding_ignores_powers_of_two(distance(x), 1, j);
        lemma_nearest_exists(v);
        lemma_signed(x < 0, nearest(v));
        let m = magnitude(nearest(v));
        assert(-(f * m) == f * (-m)) by (nonlinear_arith);
    }
}

/// A product of scaled factors is the scaled product, if nothing underflows.
pub proof fn law_scaled_product(
    a: Binary64,
    b: Binary64,
    c: Binary64,
    d: Binary64,
    i: int,
    j: int,
)
    requires
        i >= 0,
        j >= 0,
        scales(a, c, i),
        scales(b, d, j),
        product_unharmed(a, b),
        product_of(c, d).finite(),
    ensures
        scales(product_of(a, b), product_of(c, d), i + j),
{
    reveal(product_of);
    lemma_constants();
    lemma_magnitude_sign(a.rank());
    lemma_magnitude_sign(b.rank());
    lemma_magnitude_sign(c.rank());
    lemma_magnitude_sign(d.rank());
    let f = two_to(i);
    let g = two_to(j);
    lemma_two_to_positive(i);
    lemma_two_to_positive(j);
    lemma_two_to_adds(i, j);
    let x = magnitude(a.rank());
    let y = magnitude(b.rank());
    lemma_scaled_magnitude(a, c, i);
    lemma_scaled_magnitude(b, d, j);
    assert((f * x) * (g * y) == (f * g) * (x * y)) by (nonlinear_arith);
    assert(x * y >= 0) by (nonlinear_arith)
        requires
            x >= 0,
            y >= 0,
    ;
    let negative = a.negative() != b.negative();
    let v = Quantity::Ratio { num: x * y, den: unity() };
    let w = Quantity::Ratio { num: (f * g) * (x * y), den: unity() };
    lemma_nearest_exists(w);
    lemma_signed(negative, nearest(w));
    law_rounding_ignores_powers_of_two(x * y, unity(), i + j);
    lemma_nearest_exists(v);
    lemma_signed(negative, nearest(v));
    let m = magnitude(nearest(v));
    let h = f * g;
    assert(-(h * m) == h * (-m)) by (nonlinear_arith);
}

/// The magnitude of a scaled number.
proof fn lemma_scaled_magnitude(x: Binary64, y: Binary64, j: int)
    requires
        scales(x, y, j),
    ensures
        magnitude(y.rank()) == two_to(j) * magnitude(x.rank()),
{
    let f = two_to(j);
    let m = magnitude(x.rank());
    assert(f * (-m) == -(f * m)) by (nonlinear_arith);
}

/// A quotient takes no notice of a power of two in both terms.
pub proof fn law_scaled_quotient(a: Binary64, b: Binary64, c: Binary64, d: Binary64, j: int)
    requires
        j >= 0,
        scales(a, c, j),
        scales(b, d, j),
    ensures
        quotient_of(a, b) == quotient_of(c, d),
{
    reveal(quotient_of);
    lemma_constants();
    lemma_magnitude_sign(a.rank());
    lemma_magnitude_sign(b.rank());
    lemma_magnitude_sign(c.rank());
    lemma_magnitude_sign(d.rank());
    lemma_scaled_magnitude(a, c, j);
    lemma_scaled_magnitude(b, d, j);
    let f = two_to(j);
    lemma_two_to_positive(j);
    let x = magnitude(a.rank());
    let y = magnitude(b.rank());
    let u = unity();
    assert(x == 0 <==> f * x == 0) by (nonlinear_arith)
        requires
            f >= 1,
    ;
    assert(y == 0 <==> f * y == 0) by (nonlinear_arith)
        requires
            f >= 1,
    ;
    if y > 0 {
        let fy = f * y;
        let fxu = (f * x) * u;
        assert(fy > 0 && fxu >= 0 && x * u >= 0) by (nonlinear_arith)
            requires
                fy == f * y,
                fxu == (f * x) * u,
                f >= 1,
                x >= 0,
                y > 0,
                u > 0,
        ;
        assert((x * u) * fy == fxu * y) by (nonlinear_arith)
            requires
                fy == f * y,
                fxu == (f * x) * u,
        ;
        law_rounding_keeps_order(x * u, y, fxu, fy);
        law_rounding_keeps_order(fxu, fy, x * u, y);
    }
}

/// Scaling by one changes nothing.
pub proof fn law_scaled_by_one(x: Binary64)
    requires
        x.finite(),
    ensures
        scales(x, x, 0),
{
    lemma_two_to_step(0);
}

/// An integer times a power of two is the scaled number.
pub proof fn law_scaled_whole(m: int, n: int, j: int)
    requires
        j >= 0,
        m >= 0,
        n == two_to(j) * m,
        whole(n).finite(),
    ensures
        scales(whole(m), whole(n), j),
{
    reveal(whole);
    lemma_constants();
    lemma_two_to_positive(j);
    lemma_two_to_positive(1022);
    lemma_two_to_adds(52, 1022);
    lemma_two_to_values();
    let u = unity();
    let f = two_to(j);
    assert(n >= 0) by (nonlinear_arith)
        requires
            n == f * m,
            f >= 1,
            m >= 0,
    ;
    assert(n * u == f * (m * u)) by (nonlinear_arith)
        requires
            n == f * m,
    ;
    assert(m * u >= 0) by (nonlinear_arith)
        requires
            m >= 0,
            u > 0,
    ;
    let v = Quantity::Ratio { num: m * u, den: 1 };
    let w = Quantity::Ratio { num: n * u, den: 1 };
    if m == 0 {
        assert(m * u == 0) by (nonlinear_arith)
            requires
                m == 0,
        ;
        lemma_rank_bounds(0);
        law_exact_quotient_is_kept(0, 1, 0);
    } else {
        let p = two_to(1022);
        assert(BLOCK * 1 <= m * u) by (nonlinear_arith)
            requires
                m >= 1,
                u == BLOCK * p,
                p >= 1,
                BLOCK > 0,
        ;
    }
    lemma_nearest_exists(w);
    lemma_signed(false, nearest(w));
    law_rounding_ignores_powers_of_two(m * u, 1, j);
    lemma_nearest_exists(v);
    lemma_signed(false, nearest(v));
}

} // verus!
