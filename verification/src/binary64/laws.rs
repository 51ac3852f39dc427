//! Laws of the arithmetic: rounding keeps the order, and leaves exact results alone.

use vstd::prelude::*;

use crate::binary64::arithmetic::{
    difference_of, distance, product_of, quotient_of, root_of, sum_of, unity, whole,
};
use crate::binary64::number::{
    lemma_opposite, lemma_signed, lemma_signed_inverse, lemma_value_sign, of, opposite, signed,
    Binary64, HALF, HUNDRED, ONE, TWO,
};
use crate::binary64::powers::{
    lemma_two_to_adds, lemma_two_to_positive, lemma_two_to_step, lemma_two_to_values, two_to,
};
use crate::binary64::rank::{
    lemma_magnitude_increases, lemma_magnitude_sign, lemma_magnitude_step, lemma_rank_bounds,
    lemma_rank_parts, magnitude, BLOCK, INFINITE,
};
use crate::binary64::rounding::{
    lemma_nearest_exists, lemma_nearest_unique, lemma_passes_smaller, midpoint, nearest, passes,
    Quantity,
};

verus! {

/// Of two quotients the smaller one does not round to a larger number.
pub proof fn law_rounding_keeps_order(a: int, b: int, c: int, d: int)
    requires
        a >= 0,
        b > 0,
        c >= 0,
        d > 0,
        a * d <= c * b,
    ensures
        nearest(Quantity::Ratio { num: a, den: b }) <= nearest(Quantity::Ratio { num: c, den: d }),
{
    let v = Quantity::Ratio { num: a, den: b };
    let w = Quantity::Ratio { num: c, den: d };
    lemma_nearest_exists(v);
    lemma_nearest_exists(w);
    let r = nearest(v);
    let s = nearest(w);
    if s < r {
        lemma_passes_smaller(v, s, r - 1);
        let m = midpoint(s);
        assert(m * b < 2 * a ==> m * d < 2 * c) by (nonlinear_arith)
            requires
                a * d <= c * b,
                b > 0,
                d > 0,
        ;
        assert(m * b == 2 * a ==> m * d <= 2 * c) by (nonlinear_arith)
            requires
                a * d <= c * b,
                b > 0,
                d > 0,
        ;
        assert(passes(w, s));
    }
}

/// A quotient that is a number of the format rounds to that number.
pub proof fn law_exact_quotient_is_kept(num: int, den: int, r: int)
    requires
        den > 0,
        0 <= r <= INFINITE,
        num == magnitude(r) * den,
    ensures
        nearest(Quantity::Ratio { num, den }) == r,
{
    let v = Quantity::Ratio { num, den };
    lemma_magnitude_sign(r);
    lemma_magnitude_step(r);
    assert(num >= 0) by (nonlinear_arith)
        requires
            num == magnitude(r) * den,
            magnitude(r) >= 0,
            den > 0,
    ;
    let high = midpoint(r);
    let m = magnitude(r);
    assert(high * den > 2 * num) by (nonlinear_arith)
        requires
            high > 2 * m,
            num == m * den,
            den > 0,
    ;
    if r > 0 {
        lemma_magnitude_step(r - 1);
        let low = midpoint(r - 1);
        assert(low * den < 2 * num) by (nonlinear_arith)
            requires
                low < 2 * m,
                num == m * den,
                den > 0,
        ;
    }
    lemma_nearest_unique(v, r);
}

/// Rounding stays on the same side of every number of the format.
proof fn lemma_rounding_bounds(num: int, den: int, r: int)
    requires
        num >= 0,
        den > 0,
        0 <= r <= INFINITE,
    ensures
        0 <= nearest(Quantity::Ratio { num, den }) <= INFINITE,
        num <= magnitude(r) * den ==> nearest(Quantity::Ratio { num, den }) <= r,
        num >= magnitude(r) * den ==> nearest(Quantity::Ratio { num, den }) >= r,
{
    lemma_nearest_exists(Quantity::Ratio { num, den });
    let m = magnitude(r);
    lemma_magnitude_sign(r);
    assert(m * 1 == m);
    assert(num * 1 == num);
    law_exact_quotient_is_kept(m, 1, r);
    if num <= m * den {
        law_rounding_keeps_order(num, den, m, 1);
    }
    if num >= m * den {
        law_rounding_keeps_order(m, 1, num, den);
    }
}

/// The magnitudes of two ranks are ordered as the ranks are.
proof fn lemma_magnitude_order(a: int, b: int)
    requires
        0 <= a <= b,
    ensures
        0 <= magnitude(a) <= magnitude(b),
{
    lemma_magnitude_sign(a);
    if a < b {
        lemma_magnitude_increases(a, b);
    }
}

/// A value and a sign, rounded.
spec fn rounded(negative: bool, num: int, den: int) -> Binary64 {
    signed(negative, nearest(Quantity::Ratio { num, den }))
}

/// What rounding gives has the sign that it was given and is not a NaN.
proof fn lemma_rounded(negative: bool, num: int, den: int)
    requires
        num >= 0,
        den > 0,
    ensures
        !rounded(negative, num, den).nan(),
        rounded(negative, num, den).rank() == nearest(Quantity::Ratio { num, den }),
        negative ==> rounded(negative, num, den).value() == -magnitude(
            nearest(Quantity::Ratio { num, den }),
        ),
        !negative ==> rounded(negative, num, den).value() == magnitude(
            nearest(Quantity::Ratio { num, den }),
        ),
        negative ==> rounded(negative, num, den).value() <= 0,
        !negative ==> rounded(negative, num, den).value() >= 0,
        num == 0 ==> rounded(negative, num, den).value() == 0,
{
    let r = nearest(Quantity::Ratio { num, den });
    lemma_rounding_bounds(num, den, 0);
    lemma_signed(negative, r);
    lemma_magnitude_sign(r);
    lemma_rank_bounds(0);
    if num == 0 {
        assert(magnitude(0) * den == 0) by (nonlinear_arith)
            requires
                magnitude(0) == 0,
        ;
    }
}

/// Quotients over the same divisor, each with its sign, keep their order when rounded.
proof fn lemma_rounded_order(x_negative: bool, x: int, y_negative: bool, y: int, den: int)
    requires
        x >= 0,
        y >= 0,
        den > 0,
        (if x_negative {
            -x
        } else {
            x
        }) <= (if y_negative {
            -y
        } else {
            y
        }),
    ensures
        rounded(x_negative, x, den).value() <= rounded(y_negative, y, den).value(),
{
    lemma_rounded(x_negative, x, den);
    lemma_rounded(y_negative, y, den);
    lemma_rounding_bounds(x, den, 0);
    lemma_rounding_bounds(y, den, 0);
    let r = nearest(Quantity::Ratio { num: x, den });
    let s = nearest(Quantity::Ratio { num: y, den });
    if x_negative && y_negative {
        assert(y * den <= x * den) by (nonlinear_arith)
            requires
                y <= x,
                den > 0,
        ;
        law_rounding_keeps_order(y, den, x, den);
        lemma_magnitude_order(s, r);
    }
    if !x_negative && !y_negative {
        assert(x * den <= y * den) by (nonlinear_arith)
            requires
                x <= y,
                den > 0,
        ;
        law_rounding_keeps_order(x, den, y, den);
        lemma_magnitude_order(r, s);
    }
}

/// Every number that is not a NaN lies between the two infinities.
pub proof fn law_infinities_are_outermost(x: Binary64)
    requires
        !x.nan(),
    ensures
        -magnitude(INFINITE as int) <= x.value() <= magnitude(INFINITE as int),
        x.infinite() && x.negative() ==> x.value() == -magnitude(INFINITE as int),
        x.infinite() && !x.negative() ==> x.value() == magnitude(INFINITE as int),
        x.finite() ==> -magnitude(INFINITE as int) < x.value() < magnitude(INFINITE as int),
{
    lemma_magnitude_order(x.rank(), INFINITE as int);
    lemma_magnitude_sign(x.rank());
    if x.finite() {
        lemma_magnitude_increases(x.rank(), INFINITE as int);
    }
}

/// The value of a sum of finite numbers.
proof fn lemma_sum_value(a: Binary64, b: Binary64)
    requires
        a.finite(),
        b.finite(),
    ensures
        !sum_of(a, b).nan(),
        sum_of(a, b).value() == rounded(
            a.value() + b.value() < 0,
            distance(a.value() + b.value()),
            1,
        ).value(),
{
    reveal(sum_of);
    let exact = a.value() + b.value();
    lemma_rounded(exact < 0, distance(exact), 1);
    if exact == 0 {
        lemma_signed(a.negative() && b.negative(), 0);
        lemma_rank_bounds(0);
    }
}

/// A sum grows with its terms.
pub proof fn law_sum_keeps_order(a: Binary64, b: Binary64, c: Binary64, d: Binary64)
    requires
        a.le(c),
        b.le(d),
        !sum_of(a, b).nan(),
        !sum_of(c, d).nan(),
    ensures
        sum_of(a, b).le(sum_of(c, d)),
{
    reveal(sum_of);
    law_infinities_are_outermost(a);
    law_infinities_are_outermost(b);
    law_infinities_are_outermost(c);
    law_infinities_are_outermost(d);
    law_infinities_are_outermost(sum_of(a, b));
    law_infinities_are_outermost(sum_of(c, d));
    lemma_signed(false, 0x7FF8_0000_0000_0000);
    lemma_magnitude_sign(INFINITE as int);
    lemma_value_sign(a);
    lemma_value_sign(b);
    lemma_value_sign(c);
    lemma_value_sign(d);
    if a.finite() && b.finite() && c.finite() && d.finite() {
        lemma_sum_value(a, b);
        lemma_sum_value(c, d);
        let x = a.value() + b.value();
        let y = c.value() + d.value();
        lemma_rounded_order(x < 0, distance(x), y < 0, distance(y), 1);
    }
}

/// A sum stays on the side of every number on which the exact sum lies.
pub proof fn law_sum_respects_bounds(a: Binary64, b: Binary64, y: Binary64)
    requires
        a.finite(),
        b.finite(),
        y.finite(),
    ensures
        a.value() + b.value() <= y.value() ==> sum_of(a, b).le(y),
        y.value() <= a.value() + b.value() ==> y.le(sum_of(a, b)),
{
    let x = a.value() + b.value();
    let v = y.value();
    lemma_sum_value(a, b);
    lemma_value_sign(y);
    lemma_magnitude_sign(y.rank());
    let m = magnitude(y.rank());
    assert(m * 1 == m);
    law_exact_quotient_is_kept(m, 1, y.rank());
    lemma_rounded(v < 0, distance(v), 1);
    if x <= v {
        lemma_rounded_order(x < 0, distance(x), v < 0, distance(v), 1);
    }
    if v <= x {
        lemma_rounded_order(v < 0, distance(v), x < 0, distance(x), 1);
    }
}

/// The value of a product of finite numbers.
proof fn lemma_product_value(a: Binary64, b: Binary64)
    requires
        a.finite(),
        b.finite(),
    ensures
        product_of(a, b) == rounded(
            a.negative() != b.negative(),
            magnitude(a.rank()) * magnitude(b.rank()),
            unity(),
        ),
        magnitude(a.rank()) * magnitude(b.rank()) >= 0,
        unity() > 0,
        !product_of(a, b).nan(),
{
    reveal(product_of);
    lemma_two_to_positive(1074);
    let x = magnitude(a.rank());
    let y = magnitude(b.rank());
    lemma_magnitude_sign(a.rank());
    lemma_magnitude_sign(b.rank());
    assert(x * y >= 0) by (nonlinear_arith)
        requires
            x >= 0,
            y >= 0,
    ;
    lemma_rounded(a.negative() != b.negative(), x * y, unity());
}

/// A product with a factor that is not negative grows with the other factor.
pub proof fn law_product_keeps_order(a: Binary64, b: Binary64, c: Binary64)
    requires
        a.le(b),
        c.nonnegative(),
        !product_of(a, c).nan(),
        !product_of(b, c).nan(),
    ensures
        product_of(a, c).le(product_of(b, c)),
{
    reveal(product_of);
    law_infinities_are_outermost(a);
    law_infinities_are_outermost(b);
    law_infinities_are_outermost(c);
    law_infinities_are_outermost(product_of(a, c));
    law_infinities_are_outermost(product_of(b, c));
    lemma_value_sign(a);
    lemma_value_sign(b);
    lemma_value_sign(c);
    lemma_magnitude_sign(INFINITE as int);
    lemma_signed(true, INFINITE as int);
    lemma_signed(false, INFINITE as int);
    lemma_value_sign(product_of(a, c));
    lemma_value_sign(product_of(b, c));
    lemma_magnitude_sign(a.rank());
    lemma_magnitude_sign(b.rank());
    lemma_magnitude_sign(c.rank());
    if a.finite() && c.finite() {
        lemma_product_value(a, c);
        lemma_rounded(
            a.negative() != c.negative(),
            magnitude(a.rank()) * magnitude(c.rank()),
            unity(),
        );
    }
    if b.finite() && c.finite() {
        lemma_product_value(b, c);
        lemma_rounded(
            b.negative() != c.negative(),
            magnitude(b.rank()) * magnitude(c.rank()),
            unity(),
        );
    }
    if a.finite() && b.finite() && c.finite() {
        let x = magnitude(a.rank());
        let y = magnitude(b.rank());
        let z = magnitude(c.rank());
        let xs = a.negative() != c.negative();
        let ys = b.negative() != c.negative();
        assert(z == 0 ==> x * z == 0 && y * z == 0) by (nonlinear_arith);
        if z > 0 {
            let xv = a.value();
            let yv = b.value();
            assert(xv * z <= yv * z) by (nonlinear_arith)
                requires
                    xv <= yv,
                    z > 0,
            ;
            assert((-x) * z == -(x * z)) by (nonlinear_arith);
            assert((-y) * z == -(y * z)) by (nonlinear_arith);
        }
        lemma_rounded_order(xs, x * z, ys, y * z, unity());
    }
}

/// The value of a quotient of finite numbers.
proof fn lemma_quotient_value(a: Binary64, b: Binary64)
    requires
        a.finite(),
        b.finite(),
        !b.zero(),
    ensures
        quotient_of(a, b) == rounded(
            a.negative() != b.negative(),
            magnitude(a.rank()) * unity(),
            magnitude(b.rank()),
        ),
        magnitude(a.rank()) * unity() >= 0,
        magnitude(b.rank()) > 0,
        !quotient_of(a, b).nan(),
{
    reveal(quotient_of);
    lemma_two_to_positive(1074);
    let x = magnitude(a.rank());
    lemma_magnitude_sign(a.rank());
    lemma_magnitude_sign(b.rank());
    assert(x * unity() >= 0) by (nonlinear_arith)
        requires
            x >= 0,
            unity() >= 1,
    ;
    lemma_rounded(a.negative() != b.negative(), x * unity(), magnitude(b.rank()));
}

/// A quotient by a positive number grows with the number that is divided.
pub proof fn law_quotient_keeps_order(a: Binary64, b: Binary64, c: Binary64)
    requires
        a.le(b),
        of(0).lt(c),
        !quotient_of(a, c).nan(),
        !quotient_of(b, c).nan(),
    ensures
        quotient_of(a, c).le(quotient_of(b, c)),
{
    reveal(quotient_of);
    lemma_rank_bounds(0);
    law_infinities_are_outermost(a);
    law_infinities_are_outermost(b);
    law_infinities_are_outermost(c);
    law_infinities_are_outermost(quotient_of(a, c));
    law_infinities_are_outermost(quotient_of(b, c));
    lemma_value_sign(a);
    lemma_value_sign(b);
    lemma_value_sign(c);
    lemma_value_sign(of(0));
    lemma_magnitude_sign(INFINITE as int);
    lemma_signed(true, INFINITE as int);
    lemma_signed(false, INFINITE as int);
    lemma_signed(true, 0);
    lemma_signed(false, 0);
    if a.finite() && b.finite() && c.finite() {
        lemma_quotient_value(a, c);
        lemma_quotient_value(b, c);
        let x = magnitude(a.rank());
        let y = magnitude(b.rank());
        let u = unity();
        let xv = a.value();
        let yv = b.value();
        lemma_two_to_positive(1074);
        assert(xv * u <= yv * u) by (nonlinear_arith)
            requires
                xv <= yv,
                u >= 1,
        ;
        assert((-x) * u == -(x * u)) by (nonlinear_arith);
        assert((-y) * u == -(y * u)) by (nonlinear_arith);
        lemma_rounded_order(a.negative(), x * u, b.negative(), y * u, magnitude(c.rank()));
    }
}

/// A product of numbers that are not negative stays below every number that the exact product
/// does not exceed.
pub proof fn law_product_respects_bound(a: Binary64, b: Binary64, y: Binary64)
    requires
        a.nonnegative(),
        b.nonnegative(),
        y.nonnegative(),
        a.finite(),
        b.finite(),
        y.finite(),
        a.value() * b.value() <= y.value() * unity(),
    ensures
        product_of(a, b).le(y),
{
    lemma_product_value(a, b);
    lemma_value_sign(a);
    lemma_value_sign(b);
    lemma_value_sign(y);
    lemma_magnitude_sign(a.rank());
    lemma_magnitude_sign(b.rank());
    lemma_magnitude_sign(y.rank());
    let num = magnitude(a.rank()) * magnitude(b.rank());
    lemma_rounded(a.negative() != b.negative(), num, unity());
    lemma_rounding_bounds(num, unity(), y.rank());
    lemma_magnitude_order(nearest(Quantity::Ratio { num, den: unity() }), y.rank());
}

/// A quotient of numbers that are not negative stays below every number that the exact quotient
/// does not exceed.
pub proof fn law_quotient_respects_bound(a: Binary64, b: Binary64, y: Binary64)
    requires
        a.nonnegative(),
        of(0).lt(b),
        y.nonnegative(),
        a.finite(),
        b.finite(),
        y.finite(),
        a.value() * unity() <= y.value() * b.value(),
    ensures
        quotient_of(a, b).le(y),
{
    lemma_rank_bounds(0);
    lemma_value_sign(a);
    lemma_value_sign(b);
    lemma_value_sign(y);
    lemma_quotient_value(a, b);
    lemma_magnitude_sign(a.rank());
    lemma_magnitude_sign(y.rank());
    let num = magnitude(a.rank()) * unity();
    let den = magnitude(b.rank());
    lemma_rounded(a.negative() != b.negative(), num, den);
    lemma_rounding_bounds(num, den, y.rank());
    lemma_magnitude_order(nearest(Quantity::Ratio { num, den }), y.rank());
}

/// A sum of numbers that are not negative lies no farther from the first than twice the second.
pub proof fn law_sum_goes_no_farther_than_twice(a: Binary64, b: Binary64)
    requires
        a.nonnegative(),
        b.nonnegative(),
        sum_of(a, b).finite(),
    ensures
        sum_of(a, b).value() - a.value() <= 2 * b.value(),
{
    reveal(sum_of);
    law_finite_terms(a, b);
    lemma_value_sign(a);
    lemma_value_sign(b);
    lemma_signed(false, 0);
    lemma_signed(true, 0);
    lemma_rank_bounds(0);
    let exact = a.value() + b.value();
    if exact > 0 {
        let v = Quantity::Ratio { num: exact, den: 1 };
        let r = nearest(v);
        lemma_nearest_exists(v);
        lemma_signed(false, r);
        lemma_magnitude_sign(a.rank());
        if r > a.rank() {
            lemma_magnitude_order(a.rank(), r - 1);
            assert(passes(v, r - 1));
            assert(midpoint(r - 1) * 1 == midpoint(r - 1));
        } else {
            lemma_magnitude_order(r, a.rank());
        }
    }
}

/// Turning signs over turns the order over.
pub proof fn law_opposite_reverses_order(a: Binary64, b: Binary64)
    requires
        a.le(b),
    ensures
        opposite(b).le(opposite(a)),
{
    lemma_opposite(a);
    lemma_opposite(b);
}

/// A sum of numbers that are not negative is neither negative nor a NaN.
pub proof fn law_sum_of_nonnegative(a: Binary64, b: Binary64)
    requires
        a.nonnegative(),
        b.nonnegative(),
    ensures
        sum_of(a, b).nonnegative(),
        a.le(sum_of(a, b)),
        b.le(sum_of(a, b)),
{
    reveal(sum_of);
    law_infinities_are_outermost(a);
    law_infinities_are_outermost(b);
    lemma_value_sign(a);
    lemma_value_sign(b);
    lemma_magnitude_sign(INFINITE as int);
    lemma_signed(false, 0);
    lemma_signed(true, 0);
    lemma_rank_bounds(0);
    if a.finite() && b.finite() {
        let exact = a.value() + b.value();
        lemma_sum_value(a, b);
        lemma_rounded(exact < 0, distance(exact), 1);
        let m = magnitude(a.rank());
        let n = magnitude(b.rank());
        assert(m * 1 == m && n * 1 == n);
        lemma_rounding_bounds(exact, 1, a.rank());
        lemma_rounding_bounds(exact, 1, b.rank());
        let r = nearest(Quantity::Ratio { num: exact, den: 1 });
        lemma_magnitude_sign(a.rank());
        lemma_magnitude_sign(b.rank());
        if !a.zero() {
            lemma_magnitude_order(a.rank(), r);
        }
        if !b.zero() {
            lemma_magnitude_order(b.rank(), r);
        }
    }
}

/// Adding zero changes no value.
pub proof fn law_zero_is_neutral(a: Binary64, z: Binary64)
    requires
        !a.nan(),
        z.zero(),
    ensures
        sum_of(a, z).same(a),
        sum_of(z, a).same(a),
{
    reveal(sum_of);
    lemma_value_sign(a);
    lemma_value_sign(z);
    lemma_signed(false, 0);
    lemma_signed(true, 0);
    lemma_rank_bounds(0);
    if a.finite() {
        lemma_sum_value(a, z);
        lemma_sum_value(z, a);
        let m = magnitude(a.rank());
        lemma_magnitude_sign(a.rank());
        assert(m * 1 == m);
        law_exact_quotient_is_kept(m, 1, a.rank());
        lemma_rounded(a.value() < 0, distance(a.value()), 1);
    }
}

/// The difference of a number and a smaller one is not negative; it is positive where the
/// numbers are not equal.
pub proof fn law_difference_of_ordered(a: Binary64, b: Binary64)
    requires
        b.le(a),
        !difference_of(a, b).nan(),
    ensures
        difference_of(a, b).nonnegative(),
        b.lt(a) ==> of(0).lt(difference_of(a, b)),
        b.same(a) ==> difference_of(a, b).zero(),
{
    reveal(sum_of);
    let c = opposite(b);
    lemma_opposite(b);
    law_infinities_are_outermost(a);
    law_infinities_are_outermost(b);
    law_infinities_are_outermost(c);
    lemma_value_sign(a);
    lemma_value_sign(b);
    lemma_value_sign(c);
    lemma_magnitude_sign(INFINITE as int);
    lemma_rank_bounds(0);
    lemma_signed(false, 0);
    lemma_signed(true, 0);
    if a.finite() && b.finite() {
        let exact = a.value() + c.value();
        lemma_sum_value(a, c);
        lemma_rounded(exact < 0, distance(exact), 1);
        lemma_value_sign(difference_of(a, b));
        if exact > 0 {
            lemma_rank_bounds(1);
            assert(magnitude(1) * 1 == 1);
            lemma_rounding_bounds(exact, 1, 1);
            lemma_magnitude_sign(nearest(Quantity::Ratio { num: exact, den: 1 }));
        }
    }
}

/// A difference of numbers is a number, unless both are the same infinity.
pub proof fn law_difference_is_a_number(a: Binary64, b: Binary64)
    requires
        !a.nan(),
        !b.nan(),
        a.finite() || b.finite() || a.negative() != b.negative(),
    ensures
        !difference_of(a, b).nan(),
{
    reveal(sum_of);
    lemma_opposite(b);
    if a.finite() && b.finite() {
        lemma_sum_value(a, opposite(b));
    }
}

/// What lies between finite numbers is finite.
pub proof fn law_finite_between(low: Binary64, x: Binary64, high: Binary64)
    requires
        low.le(x),
        x.le(high),
        low.finite(),
        high.finite(),
    ensures
        x.finite(),
{
    law_infinities_are_outermost(low);
    law_infinities_are_outermost(x);
    law_infinities_are_outermost(high);
}

/// A NaN makes every result a NaN.
pub proof fn law_nan_spreads(a: Binary64, b: Binary64)
    requires
        a.nan() || b.nan(),
    ensures
        sum_of(a, b).nan(),
        difference_of(a, b).nan(),
        product_of(a, b).nan(),
        quotient_of(a, b).nan(),
{
    reveal(sum_of);
    reveal(product_of);
    reveal(quotient_of);
    lemma_opposite(b);
}

/// A product of finite numbers is not a NaN.
pub proof fn law_finite_product(a: Binary64, b: Binary64)
    requires
        a.finite(),
        b.finite(),
    ensures
        !product_of(a, b).nan(),
{
    lemma_product_value(a, b);
}

/// A sum with a finite number is not a NaN.
pub proof fn law_finite_sum(a: Binary64, b: Binary64)
    requires
        a.finite(),
        !b.nan(),
    ensures
        !sum_of(a, b).nan(),
{
    reveal(sum_of);
    if b.finite() {
        lemma_sum_value(a, b);
    }
}

/// A finite sum has finite terms.
pub proof fn law_finite_terms(a: Binary64, b: Binary64)
    requires
        sum_of(a, b).finite(),
    ensures
        a.finite(),
        b.finite(),
{
    reveal(sum_of);
}

/// A product of a number and zero is zero.
pub proof fn law_zero_product(a: Binary64, b: Binary64)
    requires
        a.finite(),
        b.finite(),
        a.zero() || b.zero(),
    ensures
        product_of(a, b).zero(),
        !product_of(a, b).nan(),
{
    lemma_product_value(a, b);
    let m = magnitude(a.rank());
    let n = magnitude(b.rank());
    lemma_magnitude_sign(a.rank());
    lemma_magnitude_sign(b.rank());
    assert(m == 0 || n == 0 ==> m * n == 0) by (nonlinear_arith);
    lemma_rounded(a.negative() != b.negative(), 0, unity());
    lemma_value_sign(product_of(a, b));
}

/// A product with one has the value of the other factor.
pub proof fn law_one_is_neutral(a: Binary64)
    requires
        a.finite(),
    ensures
        product_of(of(ONE), a).same(a),
{
    lemma_constants();
    lemma_product_value(of(ONE), a);
    let m = magnitude(a.rank());
    lemma_magnitude_sign(a.rank());
    assert(magnitude(of(ONE).rank()) == unity());
    assert(unity() * m == m * unity()) by (nonlinear_arith);
    law_exact_quotient_is_kept(unity() * m, unity(), a.rank());
    lemma_rounded(a.negative(), unity() * m, unity());
}

/// The factors of a product can change places.
pub proof fn law_product_commutes(a: Binary64, b: Binary64)
    ensures
        product_of(a, b) == product_of(b, a),
{
    reveal(product_of);
    let x = magnitude(a.rank());
    let y = magnitude(b.rank());
    assert(x * y == y * x) by (nonlinear_arith);
}

/// The magnitude of a power of two.
proof fn lemma_power_magnitude(e: int)
    requires
        0 <= e <= 2045,
    ensures
        magnitude((e + 1) * BLOCK) == two_to(e + 52),
{
    lemma_rank_parts(e, BLOCK as int);
    lemma_two_to_adds(e, 52);
    lemma_two_to_values();
    let p = two_to(e);
    assert(BLOCK * p == p * BLOCK) by (nonlinear_arith);
    assert(e * BLOCK + BLOCK == (e + 1) * BLOCK);
}

/// The values of the constants.
pub proof fn lemma_constants()
    ensures
        of(0).value() == 0,
        of(ONE).value() == unity(),
        of(TWO).value() == 2 * unity(),
        2 * of(HALF).value() == unity(),
        of(HUNDRED).value() == 100 * unity(),
        unity() > 0,
        of(ONE).finite(),
        of(TWO).finite(),
        of(HALF).finite(),
        of(HUNDRED).finite(),
        !of(ONE).negative(),
        !of(TWO).negative(),
        !of(HALF).negative(),
        !of(HUNDRED).negative(),
        !of(0).negative(),
        of(0).finite(),
{
    lemma_two_to_positive(1074);
    lemma_rank_bounds(0);
    lemma_power_magnitude(1022);
    lemma_power_magnitude(1023);
    lemma_power_magnitude(1021);
    lemma_two_to_step(1074);
    lemma_two_to_step(1075);
    assert(1023 * BLOCK == ONE);
    assert(1024 * BLOCK == TWO);
    assert(1022 * BLOCK == HALF);
    lemma_rank_parts(1028, 0x19_0000_0000_0000);
    assert(1028 * BLOCK + 0x19_0000_0000_0000 == HUNDRED);
    lemma_two_to_adds(1028, 46);
    lemma_two_to_adds(46, 6);
    lemma_two_to_values();
    reveal_with_fuel(two_to, 7);
    assert(two_to(6) == 64);
    let p = two_to(1028);
    let h = two_to(46);
    assert(0x19_0000_0000_0000 * p == 100 * (p * h)) by (nonlinear_arith)
        requires
            64 * h == 0x10_0000_0000_0000,
    ;
}

/// A number divided by itself is one.
pub proof fn law_self_quotient_is_one(a: Binary64)
    requires
        a.finite(),
        !a.zero(),
    ensures
        quotient_of(a, a) == of(ONE),
{
    reveal(quotient_of);
    lemma_constants();
    lemma_magnitude_sign(a.rank());
    let m = magnitude(a.rank());
    assert(magnitude(ONE as int) == unity());
    assert(m * unity() == unity() * m) by (nonlinear_arith);
    law_exact_quotient_is_kept(m * unity(), m, ONE as int);
}

/// Zero divided by a positive number is zero.
pub proof fn law_zero_quotient(b: Binary64)
    requires
        of(0).lt(b),
    ensures
        quotient_of(of(0), b) == of(0),
{
    reveal(quotient_of);
    lemma_constants();
    lemma_value_sign(b);
    lemma_rank_bounds(0);
    if b.finite() {
        lemma_magnitude_sign(b.rank());
        let m = magnitude(b.rank());
        assert(magnitude(0) * unity() == 0 && magnitude(0) * m == 0) by (nonlinear_arith)
            requires
                magnitude(0) == 0,
        ;
        law_exact_quotient_is_kept(0, m, 0);
    }
}

/// The integer 0 is positive zero.
pub proof fn law_whole_zero()
    ensures
        whole(0) == of(0),
{
    reveal(whole);
    lemma_rank_bounds(0);
    let u = unity();
    assert(0 * u == 0);
    law_exact_quotient_is_kept(0, 1, 0);
}

/// Results of numbers with a clear sign bit have a clear sign bit.
pub proof fn law_clear_signs_stay_clear(a: Binary64, b: Binary64)
    requires
        !a.negative(),
        !b.negative(),
    ensures
        !sum_of(a, b).negative(),
        !product_of(a, b).negative(),
        !quotient_of(a, b).negative(),
{
    reveal(sum_of);
    reveal(product_of);
    reveal(quotient_of);
    lemma_value_sign(a);
    lemma_value_sign(b);
    lemma_magnitude_sign(a.rank());
    lemma_magnitude_sign(b.rank());
    lemma_signed(false, 0);
    lemma_signed(false, INFINITE as int);
    if a.finite() && b.finite() {
        let exact = a.value() + b.value();
        lemma_rounded(false, exact, 1);
        lemma_nearest_exists(Quantity::Ratio { num: exact, den: 1 });
        lemma_signed(false, nearest(Quantity::Ratio { num: exact, den: 1 }));
        lemma_product_value(a, b);
        lemma_clear_sign(magnitude(a.rank()) * magnitude(b.rank()), unity());
        if !b.zero() {
            lemma_quotient_value(a, b);
            lemma_clear_sign(magnitude(a.rank()) * unity(), magnitude(b.rank()));
        }
    }
}

/// A quantity rounded without a sign has a clear sign bit.
proof fn lemma_clear_sign(num: int, den: int)
    ensures
        !rounded(false, num, den).negative(),
{
    lemma_nearest_exists(Quantity::Ratio { num, den });
    lemma_signed(false, nearest(Quantity::Ratio { num, den }));
}

/// A product that is a number has the sign that its factors make up.
pub proof fn law_product_sign(a: Binary64, b: Binary64)
    ensures
        product_of(a, b).nan() || product_of(a, b).negative() == (a.negative() != b.negative()),
{
    reveal(product_of);
    let negative = a.negative() != b.negative();
    lemma_signed(negative, INFINITE as int);
    let v = Quantity::Ratio { num: magnitude(a.rank()) * magnitude(b.rank()), den: unity() };
    lemma_nearest_exists(v);
    lemma_signed(negative, nearest(v));
}

/// A quotient that is a number has the sign that its terms make up.
pub proof fn law_quotient_sign(a: Binary64, b: Binary64)
    ensures
        quotient_of(a, b).nan() || quotient_of(a, b).negative() == (a.negative() != b.negative()),
{
    reveal(quotient_of);
    let negative = a.negative() != b.negative();
    lemma_signed(negative, INFINITE as int);
    lemma_signed(negative, 0);
    let v = Quantity::Ratio { num: magnitude(a.rank()) * unity(), den: magnitude(b.rank()) };
    lemma_nearest_exists(v);
    lemma_signed(negative, nearest(v));
}

/// The square root of a number with a clear sign bit has a clear sign bit.
pub proof fn law_root_has_a_clear_sign(a: Binary64)
    requires
        !a.negative(),
    ensures
        !root_of(a).negative(),
{
    reveal(root_of);
    let v = Quantity::Root { square: magnitude(a.rank()) * unity() };
    lemma_nearest_exists(v);
    lemma_signed(false, nearest(v));
}

/// The integer 1 is the number 1.
pub proof fn law_whole_one()
    ensures
        whole(1) == of(ONE),
{
    reveal(whole);
    lemma_constants();
    assert(magnitude(ONE as int) == unity());
    let u = unity();
    assert(1 * u == u);
    law_exact_quotient_is_kept(unity(), 1, ONE as int);
}

/// A share of a positive finite number lies between zero and one.
pub proof fn law_share_is_between_zero_and_one(part: Binary64, all: Binary64)
    requires
        part.nonnegative(),
        part.le(all),
        all.finite(),
        of(0).lt(all),
    ensures
        of(0).le(quotient_of(part, all)),
        quotient_of(part, all).le(of(ONE)),
{
    lemma_constants();
    law_infinities_are_outermost(part);
    law_infinities_are_outermost(all);
    lemma_value_sign(all);
    lemma_quotient_value(part, all);
    lemma_quotient_value(of(0), all);
    law_self_quotient_is_one(all);
    law_quotient_keeps_order(of(0), part, all);
    law_quotient_keeps_order(part, all, all);
    let z = quotient_of(of(0), all);
    assert(magnitude(0) * unity() == 0) by (nonlinear_arith)
        requires
            magnitude(0) == 0,
    ;
    lemma_rounded(false, 0, magnitude(all.rank()));
}

/// A quotient of a number that is not negative by a positive one is not negative, and is a
/// number unless both are infinite.
pub proof fn law_quotient_of_nonnegative(a: Binary64, b: Binary64)
    requires
        a.nonnegative(),
        of(0).lt(b),
        a.finite() || b.finite(),
    ensures
        quotient_of(a, b).nonnegative(),
{
    reveal(quotient_of);
    lemma_constants();
    lemma_value_sign(a);
    lemma_value_sign(b);
    law_infinities_are_outermost(a);
    law_infinities_are_outermost(b);
    lemma_magnitude_sign(INFINITE as int);
    lemma_signed(false, INFINITE as int);
    lemma_signed(true, INFINITE as int);
    lemma_signed(false, 0);
    lemma_signed(true, 0);
    if a.finite() && b.finite() {
        lemma_quotient_value(a, b);
        let m = magnitude(a.rank());
        lemma_rounded(a.negative() != b.negative(), m * unity(), magnitude(b.rank()));
        assert(m == 0 ==> m * unity() == 0) by (nonlinear_arith);
    }
}

/// A product of numbers that are not negative is not negative, and is a number unless zero
/// meets infinity.
pub proof fn law_product_of_nonnegative(a: Binary64, b: Binary64)
    requires
        a.nonnegative(),
        b.nonnegative(),
        a.finite() || !b.zero(),
        b.finite() || !a.zero(),
    ensures
        product_of(a, b).nonnegative(),
{
    reveal(product_of);
    lemma_constants();
    lemma_value_sign(a);
    lemma_value_sign(b);
    law_infinities_are_outermost(a);
    law_infinities_are_outermost(b);
    lemma_magnitude_sign(INFINITE as int);
    lemma_signed(false, INFINITE as int);
    lemma_signed(true, INFINITE as int);
    if a.finite() && b.finite() {
        lemma_product_value(a, b);
        let m = magnitude(a.rank());
        let n = magnitude(b.rank());
        lemma_rounded(a.negative() != b.negative(), m * n, unity());
        assert(m == 0 || n == 0 ==> m * n == 0) by (nonlinear_arith);
    }
}

/// A smaller integer is not a larger number.
pub proof fn law_whole_keeps_order(m: int, n: int)
    requires
        0 <= m <= n,
    ensures
        whole(m).le(whole(n)),
        whole(m).nonnegative(),
{
    reveal(whole);
    lemma_two_to_positive(1074);
    let u = unity();
    assert(0 <= m * u <= n * u) by (nonlinear_arith)
        requires
            0 <= m <= n,
            u >= 1,
    ;
    lemma_rounded(false, m * u, 1);
    lemma_rounded(false, n * u, 1);
    lemma_rounded_order(false, m * u, false, n * u, 1);
}

/// A positive integer below two to the power of 53, moved up to full width.
proof fn lemma_full_width(n: int, k: int) -> (s: int)
    requires
        0 < n < 2 * BLOCK,
        0 <= k <= 52,
        n * two_to(k) < 2 * BLOCK,
    ensures
        0 <= s <= 52,
        BLOCK <= n * two_to(s) < 2 * BLOCK,
    decreases 52 - k,
{
    let p = two_to(k);
    lemma_two_to_positive(k);
    if n * p >= BLOCK {
        k
    } else {
        lemma_two_to_step(k + 1);
        assert(n * (2 * p) == 2 * (n * p)) by (nonlinear_arith);
        if k == 52 {
            lemma_two_to_values();
            assert(n * p >= BLOCK) by (nonlinear_arith)
                requires
                    n >= 1,
                    p == BLOCK,
            ;
        }
        lemma_full_width(n, k + 1)
    }
}

/// An integer up to two to the power of 53 is a number of the format.
pub proof fn law_whole_is_exact(n: int)
    requires
        0 <= n <= 2 * BLOCK,
    ensures
        whole(n).finite(),
        !whole(n).negative(),
        whole(n).value() == n * unity(),
{
    reveal(whole);
    lemma_two_to_positive(1074);
    lemma_two_to_values();
    let u = unity();
    assert(n * u >= 0) by (nonlinear_arith)
        requires
            n >= 0,
            u >= 1,
    ;
    lemma_rounded(false, n * u, 1);
    if n == 0 {
        assert(n * u == 0) by (nonlinear_arith)
            requires
                n == 0,
        ;
        lemma_rank_bounds(0);
        law_exact_quotient_is_kept(0, 1, 0);
    } else if n == 2 * BLOCK {
        lemma_rank_parts(1075, BLOCK as int);
        lemma_two_to_step(1075);
        let r = 1075 * BLOCK + BLOCK;
        assert(BLOCK * (2 * u) == (2 * BLOCK) * u) by (nonlinear_arith);
        assert(magnitude(r) * 1 == n * u);
        law_exact_quotient_is_kept(n * u, 1, r);
    } else {
        assert(n * 1 == n);
        let s = lemma_full_width(n, 0);
        let q = n * two_to(s);
        let r = (1074 - s) * BLOCK + q;
        lemma_rank_parts(1074 - s, q);
        lemma_two_to_adds(1074 - s, s);
        let p = two_to(s);
        let g = two_to(1074 - s);
        assert((n * p) * g == n * u) by (nonlinear_arith)
            requires
                g * p == u,
        ;
        assert(magnitude(r) * 1 == n * u);
        law_exact_quotient_is_kept(n * u, 1, r);
    }
}

/// An integer up to two to the power of 64 is finite as a number.
pub proof fn law_whole_is_finite(n: int)
    requires
        0 <= n <= 0x1_0000_0000_0000_0000,
    ensures
        whole(n).finite(),
        whole(n).nonnegative(),
{
    reveal(whole);
    lemma_two_to_positive(1074);
    lemma_two_to_values();
    lemma_two_to_adds(1074, 64);
    lemma_power_magnitude(1086);
    let u = unity();
    let r = 1087 * BLOCK;
    assert(0 <= n * u <= u * 0x1_0000_0000_0000_0000) by (nonlinear_arith)
        requires
            0 <= n <= 0x1_0000_0000_0000_0000,
            u >= 1,
    ;
    lemma_rounded(false, n * u, 1);
    lemma_rounding_bounds(n * u, 1, r);
}

/// Integers add exactly up to two to the power of 53.
pub proof fn law_whole_adds(m: int, n: int)
    requires
        0 <= m,
        0 <= n,
        m + n <= 2 * BLOCK,
    ensures
        sum_of(whole(m), whole(n)) == whole(m + n),
{
    reveal(whole);
    reveal(sum_of);
    law_whole_is_exact(m);
    law_whole_is_exact(n);
    law_whole_is_exact(m + n);
    let u = unity();
    assert((m + n) * u == m * u + n * u) by (nonlinear_arith);
    lemma_two_to_positive(1074);
    assert(m * u >= 0 && n * u >= 0) by (nonlinear_arith)
        requires
            m >= 0,
            n >= 0,
            u >= 1,
    ;
    if m + n == 0 {
        assert(m * u == 0 && n * u == 0) by (nonlinear_arith)
            requires
                m == 0,
                n == 0,
        ;
        lemma_rank_bounds(0);
        law_exact_quotient_is_kept(0, 1, 0);
    }
    assert((m + n) * u > 0 || (m + n) * u == 0);
    if (m + n) * u == 0 {
        assert(m + n == 0) by (nonlinear_arith)
            requires
                (m + n) * u == 0,
                u >= 1,
        ;
    }
}

/// Integers whose product is at most two to the power of 53 multiply exactly.
pub proof fn law_whole_multiplies(m: int, n: int)
    requires
        0 <= m <= 2 * BLOCK,
        0 <= n <= 2 * BLOCK,
        m * n <= 2 * BLOCK,
    ensures
        product_of(whole(m), whole(n)) == whole(m * n),
{
    lemma_two_to_positive(1074);
    law_whole_is_exact(m);
    law_whole_is_exact(n);
    assert(m * n >= 0) by (nonlinear_arith)
        requires
            m >= 0,
            n >= 0,
    ;
    law_whole_is_exact(m * n);
    let u = unity();
    let r = whole(m * n).rank();
    lemma_product_value(whole(m), whole(n));
    lemma_signed_inverse(whole(m * n));
    assert(((m * n) * u) * u == (m * u) * (n * u)) by (nonlinear_arith);
    law_exact_quotient_is_kept((m * u) * (n * u), u, r);
    lemma_rounded(false, (m * u) * (n * u), u);
}

/// A finite number over one that is not smaller than 1 does not overflow.
pub proof fn law_quotient_by_one_or_more_is_finite(a: Binary64, b: Binary64)
    requires
        a.finite(),
        b.finite(),
        of(ONE).le(b),
    ensures
        quotient_of(a, b).finite(),
{
    lemma_constants();
    let u = unity();
    let size = signed(false, a.rank());
    lemma_signed_inverse(a);
    lemma_signed(false, a.rank());
    lemma_magnitude_sign(a.rank());
    lemma_magnitude_sign(b.rank());
    let x = magnitude(a.rank());
    let y = b.value();
    assert(x * u <= x * y) by (nonlinear_arith)
        requires
            x >= 0,
            y >= u,
    ;
    lemma_value_sign(b);
    lemma_value_sign(size);
    law_quotient_of_nonnegative(size, b);
    law_quotient_respects_bound(size, b, size);
    law_finite_between(of(0), quotient_of(size, b), size);
    reveal(quotient_of);
    let v = Quantity::Ratio { num: x * u, den: magnitude(b.rank()) };
    assert(x * u >= 0) by (nonlinear_arith)
        requires
            x >= 0,
            u > 0,
    ;
    lemma_nearest_exists(v);
    lemma_signed(false, nearest(v));
    lemma_signed(true, nearest(v));
}

} // verus!
