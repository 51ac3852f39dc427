//! How far rounding moves a result: never more than half the spacing of the numbers there.

use vstd::prelude::*;

use crate::binary64::arithmetic::{distance, product_of, quotient_of, sum_of, unity};
use crate::binary64::laws::{
    law_exact_quotient_is_kept, law_finite_between, law_rounding_keeps_order,
    law_sum_respects_bounds, lemma_constants,
};
use crate::binary64::number::{
    lemma_opposite, lemma_signed, lemma_value_sign, of, opposite, signed, Binary64, HUNDRED, ONE,
    TWO,
};
use crate::binary64::powers::{
    lemma_two_to_adds, lemma_two_to_increases, lemma_two_to_positive, lemma_two_to_step,
    lemma_two_to_values, two_to,
};
use crate::binary64::rank::{
    lemma_magnitude_increases, lemma_magnitude_sign, lemma_magnitude_step, lemma_rank_bounds,
    lemma_rank_parts, level, magnitude, significand, BLOCK, INFINITE,
};
use crate::binary64::rounding::{lemma_nearest_exists, midpoint, nearest, passes, Quantity};

verus! {

/// The spacing of the numbers at `x`, in units of the smallest positive number.
pub open spec fn spacing(x: Binary64) -> int {
    two_to(level(x.rank()))
}

/// The spacing does not shrink with the rank.
pub proof fn lemma_level_order(a: int, b: int)
    requires
        0 <= a <= b,
    ensures
        0 <= level(a) <= level(b),
        1 <= two_to(level(a)) <= two_to(level(b)),
{
    lemma_rank_bounds(a);
    lemma_rank_bounds(b);
    assert(a / (BLOCK as int) <= b / (BLOCK as int)) by (nonlinear_arith)
        requires
            a <= b,
            BLOCK > 0,
    ;
    lemma_two_to_positive(level(a));
    if level(a) < level(b) {
        lemma_two_to_increases(level(a), level(b));
    }
}

/// A magnitude against the spacing at its rank.
pub proof fn lemma_spacing_bounds(r: int)
    requires
        r >= 0,
    ensures
        two_to(level(r)) >= 1,
        magnitude(r) < 2 * BLOCK * two_to(level(r)),
        two_to(level(r)) == 1 || BLOCK * two_to(level(r)) <= magnitude(r),
{
    lemma_rank_bounds(r);
    lemma_two_to_values();
    lemma_two_to_positive(level(r));
    let p = two_to(level(r));
    let q = significand(r);
    assert(q * p < 2 * BLOCK * p) by (nonlinear_arith)
        requires
            q < 2 * BLOCK,
            p >= 1,
    ;
    if level(r) > 0 {
        assert(BLOCK * p <= q * p) by (nonlinear_arith)
            requires
                BLOCK <= q,
                p >= 1,
        ;
    }
}

/// A quotient and the number that it rounds to differ by half the spacing at most.
pub proof fn lemma_nearest_error(num: int, den: int)
    requires
        num >= 0,
        den > 0,
        nearest(Quantity::Ratio { num, den }) < INFINITE,
    ensures
        ({
            let r = nearest(Quantity::Ratio { num, den });
            2 * distance(magnitude(r) * den - num) <= two_to(level(r)) * den
        }),
{
    let v = Quantity::Ratio { num, den };
    lemma_nearest_exists(v);
    let r = nearest(v);
    let m = magnitude(r);
    let s = two_to(level(r));
    lemma_magnitude_step(r);
    lemma_two_to_positive(level(r));
    lemma_magnitude_sign(r);
    assert(!v.above(midpoint(r)));
    assert((2 * m + s) * den == 2 * (m * den) + s * den) by (nonlinear_arith);
    assert(s * den >= 0) by (nonlinear_arith)
        requires
            s >= 1,
            den > 0,
    ;
    if r > 0 {
        lemma_magnitude_step(r - 1);
        lemma_level_order(r - 1, r);
        let t = two_to(level(r - 1));
        assert(passes(v, r - 1));
        assert((2 * m - t) * den <= 2 * num);
        assert((2 * m - t) * den == 2 * (m * den) - t * den) by (nonlinear_arith);
        assert(t * den <= s * den) by (nonlinear_arith)
            requires
                t <= s,
                den > 0,
        ;
    } else {
        lemma_rank_bounds(0);
        assert(m * den == 0) by (nonlinear_arith)
            requires
                m == 0,
        ;
    }
}

/// The value of a number against the spacing there.
pub proof fn lemma_spacing(x: Binary64)
    ensures
        spacing(x) >= 1,
        distance(x.value()) == magnitude(x.rank()),
        distance(x.value()) < 2 * BLOCK * spacing(x),
        spacing(x) == 1 || BLOCK * spacing(x) <= distance(x.value()),
{
    lemma_spacing_bounds(x.rank());
    lemma_magnitude_sign(x.rank());
}

/// Of two numbers the one of smaller magnitude does not have the larger spacing.
pub proof fn lemma_spacing_order(x: Binary64, y: Binary64)
    requires
        distance(x.value()) <= distance(y.value()),
    ensures
        spacing(x) <= spacing(y),
{
    lemma_magnitude_sign(x.rank());
    lemma_magnitude_sign(y.rank());
    if x.rank() > y.rank() {
        lemma_magnitude_increases(y.rank(), x.rank());
    }
    lemma_level_order(x.rank(), y.rank());
}

/// A finite sum differs from the exact one by half the spacing at most, and by a small part of
/// itself at most.
pub proof fn law_sum_error(a: Binary64, b: Binary64)
    requires
        a.finite(),
        b.finite(),
        sum_of(a, b).finite(),
    ensures
        2 * distance(sum_of(a, b).value() - (a.value() + b.value())) <= spacing(sum_of(a, b)),
        2 * BLOCK * distance(sum_of(a, b).value() - (a.value() + b.value())) <= distance(
            sum_of(a, b).value(),
        ),
{
    reveal(sum_of);
    let exact = a.value() + b.value();
    let s = sum_of(a, b);
    if exact == 0 {
        lemma_signed(a.negative() && b.negative(), 0);
        lemma_rank_bounds(0);
        lemma_two_to_positive(level(0));
    } else {
        let r = nearest(Quantity::Ratio { num: distance(exact), den: 1 });
        lemma_nearest_exists(Quantity::Ratio { num: distance(exact), den: 1 });
        lemma_signed(exact < 0, r);
        lemma_magnitude_sign(r);
        lemma_nearest_error(distance(exact), 1);
        assert(magnitude(r) * 1 == magnitude(r) && two_to(level(r)) * 1 == two_to(level(r)));
    }
    lemma_spacing(s);
}

/// A finite product differs from the exact one by half the spacing at most.
pub proof fn law_product_error(a: Binary64, b: Binary64)
    requires
        a.finite(),
        b.finite(),
        product_of(a, b).finite(),
    ensures
        2 * distance(product_of(a, b).value() * unity() - a.value() * b.value()) <= spacing(
            product_of(a, b),
        ) * unity(),
{
    reveal(product_of);
    let negative = a.negative() != b.negative();
    let x = magnitude(a.rank());
    let y = magnitude(b.rank());
    let u = unity();
    lemma_two_to_positive(1074);
    lemma_magnitude_sign(a.rank());
    lemma_magnitude_sign(b.rank());
    assert(x * y >= 0) by (nonlinear_arith)
        requires
            x >= 0,
            y >= 0,
    ;
    let v = Quantity::Ratio { num: x * y, den: u };
    let r = nearest(v);
    lemma_nearest_exists(v);
    lemma_signed(negative, r);
    lemma_nearest_error(x * y, u);
    let m = magnitude(r);
    assert((-x) * y == -(x * y) && x * (-y) == -(x * y) && (-x) * (-y) == x * y && (-m) * u == -(m
        * u)) by (nonlinear_arith);
}

/// A finite quotient by a number other than zero differs from the exact one by half the spacing at
/// most.
pub proof fn law_quotient_error(a: Binary64, b: Binary64)
    requires
        a.finite(),
        b.finite(),
        b.value() != 0,
        quotient_of(a, b).finite(),
    ensures
        2 * distance(quotient_of(a, b).value() * b.value() - a.value() * unity()) <= spacing(
            quotient_of(a, b),
        ) * distance(b.value()),
{
    reveal(quotient_of);
    lemma_value_sign(b);
    let x = magnitude(a.rank());
    let y = magnitude(b.rank());
    let u = unity();
    lemma_two_to_positive(1074);
    lemma_magnitude_sign(a.rank());
    lemma_magnitude_sign(b.rank());
    assert(x * u >= 0) by (nonlinear_arith)
        requires
            x >= 0,
            u >= 1,
    ;
    let v = Quantity::Ratio { num: x * u, den: y };
    let r = nearest(v);
    lemma_nearest_exists(v);
    lemma_signed(a.negative() != b.negative(), r);
    lemma_nearest_error(x * u, y);
    let m = magnitude(r);
    assert((-x) * u == -(x * u)) by (nonlinear_arith);
    assert((-m) * y == -(m * y) && m * (-y) == -(m * y) && (-m) * (-y) == m * y)
        by (nonlinear_arith);
}

/// Half the spacing of the numbers right after 1: two to the power of minus 53.
pub open spec fn rounding_unit() -> int {
    two_to(1021)
}

/// Powers of two around the rounding unit.
pub proof fn lemma_rounding_unit()
    ensures
        rounding_unit() >= 1,
        unity() == 2 * BLOCK * rounding_unit(),
        spacing(of(ONE)) == 2 * rounding_unit(),
        spacing(of(HUNDRED)) == 128 * rounding_unit(),
{
    lemma_two_to_values();
    lemma_two_to_adds(1021, 53);
    lemma_two_to_step(1022);
    lemma_two_to_step(1023);
    lemma_two_to_step(1024);
    lemma_two_to_step(1025);
    lemma_two_to_step(1026);
    lemma_two_to_step(1027);
    lemma_two_to_step(1028);
    lemma_spacing(of(ONE));
    assert(of(ONE).rank() / (BLOCK as int) == 1023);
    assert(of(HUNDRED).rank() / (BLOCK as int) == 1029);
    let p = two_to(1021);
    assert(p * 0x20_0000_0000_0000 == 2 * BLOCK * p) by (nonlinear_arith)
        requires
            BLOCK == 0x10_0000_0000_0000,
    ;
}

/// Halving a number loses half of the smallest positive number at most, and nothing where the
/// spacing is larger than that number.
pub proof fn law_half_error(a: Binary64)
    requires
        a.finite(),
    ensures
        quotient_of(a, of(TWO)).finite(),
        distance(2 * quotient_of(a, of(TWO)).value() - a.value()) <= 1,
        spacing(a) > 1 ==> 2 * quotient_of(a, of(TWO)).value() == a.value(),
{
    reveal(quotient_of);
    lemma_constants();
    let r = a.rank();
    let m = magnitude(r);
    let u = unity();
    let v = Quantity::Ratio { num: m * u, den: 2 * u };
    lemma_magnitude_sign(r);
    lemma_rank_bounds(r);
    lemma_two_to_values();
    assert(magnitude(of(TWO).rank()) == 2 * u);
    if level(r) > 0 {
        let t = level(r);
        let q = significand(r);
        let s = (t - 1) * BLOCK + q;
        lemma_rank_parts(t - 1, q);
        lemma_two_to_step(t);
        let p = two_to(t - 1);
        assert(m * u == (q * p) * (2 * u)) by (nonlinear_arith)
            requires
                m == q * (2 * p),
        ;
        assert(q * (2 * p) == 2 * (q * p)) by (nonlinear_arith);
        assert(s <= r) by (nonlinear_arith)
            requires
                s == (t - 1) * BLOCK + q,
                r == t * BLOCK + q,
                BLOCK > 0,
        ;
        law_exact_quotient_is_kept(m * u, 2 * u, s);
        lemma_signed(a.negative(), s);
    } else {
        assert(m * u >= 0) by (nonlinear_arith)
            requires
                m >= 0,
                u > 0,
        ;
        let s = nearest(v);
        lemma_nearest_exists(v);
        lemma_spacing_bounds(r);
        assert(m * u <= m * (2 * u)) by (nonlinear_arith)
            requires
                m >= 0,
                u > 0,
        ;
        law_rounding_keeps_order(m * u, 2 * u, m, 1);
        law_exact_quotient_is_kept(m, 1, r);
        lemma_level_order(s, r);
        lemma_rank_bounds(s);
        lemma_signed(a.negative(), s);
        lemma_nearest_error(m * u, 2 * u);
        let k = magnitude(s);
        let x = 2 * k - m;
        assert(k * (2 * u) - m * u == x * u) by (nonlinear_arith)
            requires
                x == 2 * k - m,
        ;
        assert(-1 <= x <= 1) by (nonlinear_arith)
            requires
                2 * (x * u) <= 2 * u,
                -(2 * (x * u)) <= 2 * u,
                u > 0,
        ;
    }
}

/// The number in the middle of two finite numbers, against their exact middle.
pub proof fn law_half_sum_error(a: Binary64, b: Binary64, s: int)
    requires
        a.finite(),
        b.finite(),
        spacing(a) <= s,
        spacing(b) <= s,
    ensures
        ({
            let middle = sum_of(quotient_of(a, of(TWO)), quotient_of(b, of(TWO)));
            &&& middle.finite()
            &&& distance(2 * middle.value() - (a.value() + b.value())) <= 4 * s
        }),
{
    let x = quotient_of(a, of(TWO));
    let y = quotient_of(b, of(TWO));
    let middle = sum_of(x, y);
    law_half_error(a);
    law_half_error(b);
    lemma_spacing(a);
    lemma_spacing(b);
    let big = if distance(a.value()) <= distance(b.value()) {
        b
    } else {
        a
    };
    if distance(a.value()) <= distance(b.value()) {
        lemma_spacing_order(a, b);
    } else {
        lemma_spacing_order(b, a);
    }
    if distance(a.value()) == distance(b.value()) {
        lemma_spacing_order(b, a);
    }
    let limit = if spacing(big) > 1 {
        big
    } else {
        signed(false, 2 * BLOCK)
    };
    lemma_rank_parts(1, BLOCK as int);
    lemma_two_to_values();
    lemma_signed(false, 2 * BLOCK);
    lemma_opposite(limit);
    let far = distance(limit.value());
    let av = a.value();
    let bv = b.value();
    let twice = 2 * (x.value() + y.value());
    if spacing(big) > 1 {
        if distance(av) == distance(bv) {
            assert(twice == av + bv);
        } else if distance(av) < distance(bv) {
            assert(2 * y.value() == bv);
            assert(-2 * far <= twice <= 2 * far);
        } else {
            assert(2 * x.value() == av);
            assert(-2 * far <= twice <= 2 * far);
        }
    } else {
        assert(spacing(a) == 1 && spacing(b) == 1);
        assert(distance(av) < 2 * BLOCK && distance(bv) < 2 * BLOCK);
        assert(far == 2 * BLOCK);
    }
    assert(-far <= x.value() + y.value() <= far);
    law_sum_respects_bounds(x, y, limit);
    law_sum_respects_bounds(x, y, opposite(limit));
    law_finite_within(middle, limit);
    law_sum_error(x, y);
    lemma_spacing_order(middle, limit);
    lemma_spacing(limit);
}

/// A number that lies between a finite one and its opposite is finite.
proof fn law_finite_within(x: Binary64, limit: Binary64)
    requires
        limit.finite(),
        x.le(limit) && opposite(limit).le(x) || limit.le(x) && x.le(opposite(limit)),
    ensures
        x.finite(),
{
    lemma_opposite(limit);
    if x.le(limit) && opposite(limit).le(x) {
        law_finite_between(opposite(limit), x, limit);
    } else {
        law_finite_between(limit, x, opposite(limit));
    }
}

/// A product with a factor between minus one and one is not larger than the other factor.
pub proof fn law_product_with_a_fraction(a: Binary64, b: Binary64)
    requires
        a.finite(),
        b.finite(),
        distance(a.value()) <= unity(),
    ensures
        product_of(a, b).finite(),
        distance(product_of(a, b).value()) <= distance(b.value()),
{
    reveal(product_of);
    lemma_constants();
    let x = magnitude(a.rank());
    let y = magnitude(b.rank());
    let u = unity();
    lemma_magnitude_sign(a.rank());
    lemma_magnitude_sign(b.rank());
    assert(0 <= x * y <= y * u) by (nonlinear_arith)
        requires
            0 <= x <= u,
            y >= 0,
    ;
    let v = Quantity::Ratio { num: x * y, den: u };
    let r = nearest(v);
    lemma_nearest_exists(v);
    assert((x * y) * 1 <= y * u);
    law_rounding_keeps_order(x * y, u, y, 1);
    assert(y * 1 == y);
    law_exact_quotient_is_kept(y, 1, b.rank());
    lemma_signed(a.negative() != b.negative(), r);
    lemma_magnitude_sign(r);
    if r < b.rank() {
        lemma_magnitude_increases(r, b.rank());
    }
}

/// The number past the largest finite one, in units of the smallest.
pub open spec fn ceiling() -> int {
    two_to(2098)
}

/// The ceiling is the magnitude of infinity.
pub proof fn lemma_ceiling()
    ensures
        ceiling() == magnitude(INFINITE as int),
        ceiling() >= 1,
{
    lemma_two_to_positive(2098);
    lemma_two_to_adds(2046, 52);
    lemma_two_to_values();
    lemma_rank_parts(2046, BLOCK as int);
    assert(BLOCK * two_to(2046) == two_to(2046) * BLOCK) by (nonlinear_arith);
}

/// What is rounded to infinity is not less than half of the ceiling.
proof fn lemma_overflow(num: int, den: int)
    requires
        num >= 0,
        den > 0,
        nearest(Quantity::Ratio { num, den }) == INFINITE,
    ensures
        ceiling() * den <= 2 * num,
{
    let v = Quantity::Ratio { num, den };
    lemma_nearest_exists(v);
    lemma_ceiling();
    lemma_magnitude_sign(INFINITE - 1);
    assert(passes(v, INFINITE - 1));
    let mid = midpoint(INFINITE - 1);
    assert(mid * den <= 2 * num);
    assert(ceiling() * den <= mid * den) by (nonlinear_arith)
        requires
            ceiling() <= mid,
            den > 0,
    ;
}

/// A sum overflows only where the exact one is at least half of the ceiling.
pub proof fn law_sum_overflows_when_huge(a: Binary64, b: Binary64)
    requires
        a.finite(),
        b.finite(),
        2 * distance(a.value() + b.value()) < ceiling(),
    ensures
        sum_of(a, b).finite(),
{
    reveal(sum_of);
    let t = a.value() + b.value();
    if t == 0 {
        lemma_signed(a.negative() && b.negative(), 0);
    } else {
        let v = Quantity::Ratio { num: distance(t), den: 1 };
        lemma_nearest_exists(v);
        lemma_signed(t < 0, nearest(v));
        if nearest(v) == INFINITE {
            lemma_overflow(distance(t), 1);
        }
    }
}

/// A product overflows only where the exact one is at least half of the ceiling.
pub proof fn law_product_overflows_when_huge(a: Binary64, b: Binary64)
    requires
        a.finite(),
        b.finite(),
        2 * distance(a.value() * b.value()) < ceiling() * unity(),
    ensures
        product_of(a, b).finite(),
{
    reveal(product_of);
    lemma_two_to_positive(1074);
    let x = magnitude(a.rank());
    let y = magnitude(b.rank());
    lemma_magnitude_sign(a.rank());
    lemma_magnitude_sign(b.rank());
    assert((-x) * y == -(x * y) && x * (-y) == -(x * y) && (-x) * (-y) == x * y)
        by (nonlinear_arith);
    assert(x * y >= 0) by (nonlinear_arith)
        requires
            x >= 0,
            y >= 0,
    ;
    let v = Quantity::Ratio { num: x * y, den: unity() };
    lemma_nearest_exists(v);
    lemma_signed(a.negative() != b.negative(), nearest(v));
    if nearest(v) == INFINITE {
        lemma_overflow(x * y, unity());
    }
}

} // verus!
