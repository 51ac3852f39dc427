//! The results of arithmetic are the numbers nearest to the exact ones, and what the special numbers
//! lead to.

use vstd::prelude::*;

use crate::binary64::arithmetic::{
    distance, nearest_count, product_of, quotient_of, root_of, sum_of, unity, whole,
};
use crate::binary64::deviation::lemma_product_size;
use crate::binary64::laws::lemma_constants;
use crate::binary64::number::{
    lemma_opposite, lemma_signed, lemma_value_sign, opposite, Binary64,
};
use crate::binary64::rank::{
    lemma_magnitude_increases, lemma_magnitude_sign, magnitude, INFINITE,
};
use crate::binary64::rounding::{
    lemma_midpoint_increases, lemma_nearest_exists, midpoint, nearest, passes, Quantity,
};

verus! {

/// Whether `x` is at least as near to `num / den` as `y` is. Of two that are equally near, `x` is the
/// one with the even rank.
pub open spec fn nearer(x: Binary64, y: Binary64, num: int, den: int) -> bool {
    let far = distance(x.value() * den - num);
    let other = distance(y.value() * den - num);
    &&& far <= other
    &&& far == other && x.value() != y.value() ==> x.rank() % 2 == 0
}

/// No magnitude is nearer than the one that rounding comes to.
proof fn lemma_nearest_magnitude(num: int, den: int, j: int)
    requires
        num >= 0,
        den > 0,
        j >= 0,
        nearest(Quantity::Ratio { num, den }) < INFINITE,
    ensures
        ({
            let r = nearest(Quantity::Ratio { num, den });
            let far = distance(magnitude(r) * den - num);
            let other = distance(magnitude(j) * den - num);
            &&& far <= other
            &&& far == other && j != r ==> r % 2 == 0
        }),
{
    let v = Quantity::Ratio { num, den };
    lemma_nearest_exists(v);
    let r = nearest(v);
    let x = magnitude(r);
    let y = magnitude(j);
    assert(!passes(v, r));
    if j > r {
        let next = magnitude(r + 1);
        lemma_magnitude_increases(r, r + 1);
        if j > r + 1 {
            lemma_magnitude_increases(r + 1, j);
        }
        assert(next * den <= y * den) by (nonlinear_arith)
            requires
                next <= y,
                den > 0,
        ;
        assert(x * den < next * den) by (nonlinear_arith)
            requires
                x < next,
                den > 0,
        ;
        assert((x + next) * den == x * den + next * den) by (nonlinear_arith);
        assert(next < y ==> next * den < y * den) by (nonlinear_arith)
            requires
                den > 0,
        ;
    } else if j < r {
        let last = magnitude(r - 1);
        lemma_magnitude_increases(r - 1, r);
        if j < r - 1 {
            lemma_magnitude_increases(j, r - 1);
        }
        assert(passes(v, r - 1));
        assert(y * den <= last * den) by (nonlinear_arith)
            requires
                y <= last,
                den > 0,
        ;
        assert(last * den < x * den) by (nonlinear_arith)
            requires
                last < x,
                den > 0,
        ;
        assert((last + x) * den == last * den + x * den) by (nonlinear_arith);
        assert(y < last ==> y * den < last * den) by (nonlinear_arith)
            requires
                den > 0,
        ;
    }
}

/// The same with signs: `x` is a magnitude on the side of `t`, and `y` one on either side.
proof fn lemma_signed_nearness(x: Binary64, y: Binary64, t: int, den: int)
    requires
        den > 0,
        x.finite(),
        nearest(Quantity::Ratio { num: distance(t), den }) == x.rank(),
        t > 0 ==> !x.negative(),
        t < 0 ==> x.negative(),
    ensures
        nearer(x, y, t, den),
{
    let j = y.rank();
    let a = magnitude(x.rank());
    let b = magnitude(j);
    lemma_magnitude_sign(x.rank());
    lemma_magnitude_sign(j);
    lemma_nearest_magnitude(distance(t), den, j);
    assert((-a) * den == -(a * den) && (-b) * den == -(b * den)) by (nonlinear_arith);
    assert(a * den >= 0 && b * den >= 0) by (nonlinear_arith)
        requires
            a >= 0,
            b >= 0,
            den > 0,
    ;
    if t == 0 {
        let v = Quantity::Ratio { num: 0int, den };
        lemma_nearest_exists(v);
        let r = x.rank();
        if r > 0 {
            assert(passes(v, r - 1));
            lemma_magnitude_increases(r - 1, r);
            lemma_magnitude_sign(r - 1);
            let mid = midpoint(r - 1);
            assert(mid * den > 0) by (nonlinear_arith)
                requires
                    mid > 0,
                    den > 0,
            ;
        }
        assert(a == 0);
        assert(a * den == 0) by (nonlinear_arith)
            requires
                a == 0,
        ;
        if b > 0 {
            assert(b * den > 0) by (nonlinear_arith)
                requires
                    b > 0,
                    den > 0,
            ;
        }
    } else if j == x.rank() && x.value() != y.value() {
        assert(a > 0);
        assert(a * den > 0) by (nonlinear_arith)
            requires
                a > 0,
                den > 0,
        ;
    }
}

/// No number is nearer to the exact sum than the sum is.
pub proof fn law_no_number_is_nearer_to_a_sum(a: Binary64, b: Binary64, y: Binary64)
    requires
        a.finite(),
        b.finite(),
        sum_of(a, b).finite(),
    ensures
        nearer(sum_of(a, b), y, a.value() + b.value(), 1),
{
    reveal(sum_of);
    let t = a.value() + b.value();
    let s = sum_of(a, b);
    let v = Quantity::Ratio { num: distance(t), den: 1 };
    lemma_nearest_exists(v);
    if t != 0 {
        lemma_signed(t < 0, nearest(v));
        lemma_signed_nearness(s, y, t, 1);
    } else {
        lemma_signed(a.negative() && b.negative(), 0);
        lemma_magnitude_sign(0);
        lemma_value_sign(s);
    }
}

/// No number is nearer to the exact product than the product is.
pub proof fn law_no_number_is_nearer_to_a_product(a: Binary64, b: Binary64, y: Binary64)
    requires
        a.finite(),
        b.finite(),
        product_of(a, b).finite(),
    ensures
        nearer(product_of(a, b), y, a.value() * b.value(), unity()),
{
    reveal(product_of);
    lemma_constants();
    let t = a.value() * b.value();
    let p = product_of(a, b);
    lemma_magnitude_sign(a.rank());
    lemma_magnitude_sign(b.rank());
    lemma_value_sign(a);
    lemma_value_sign(b);
    lemma_product_size(a.value(), b.value());
    let v = Quantity::Ratio { num: distance(t), den: unity() };
    lemma_nearest_exists(v);
    lemma_signed(a.negative() != b.negative(), nearest(v));
    let x = a.value();
    let z = b.value();
    assert(t > 0 ==> (x > 0 && z > 0) || (x < 0 && z < 0)) by (nonlinear_arith)
        requires
            t == x * z,
    ;
    assert(t < 0 ==> (x > 0 && z < 0) || (x < 0 && z > 0)) by (nonlinear_arith)
        requires
            t == x * z,
    ;
    lemma_signed_nearness(p, y, t, unity());
}

/// No number is nearer to the exact quotient by a positive number than the quotient is.
pub proof fn law_no_number_is_nearer_to_a_quotient(a: Binary64, b: Binary64, y: Binary64)
    requires
        a.finite(),
        b.finite(),
        b.value() > 0,
        quotient_of(a, b).finite(),
    ensures
        nearer(quotient_of(a, b), y, a.value() * unity(), b.value()),
{
    reveal(quotient_of);
    lemma_constants();
    let u = unity();
    let t = a.value() * u;
    let q = quotient_of(a, b);
    lemma_magnitude_sign(a.rank());
    lemma_magnitude_sign(b.rank());
    lemma_value_sign(a);
    lemma_value_sign(b);
    lemma_product_size(a.value(), u);
    let v = Quantity::Ratio { num: distance(t), den: b.value() };
    lemma_nearest_exists(v);
    lemma_signed(a.negative() != b.negative(), nearest(v));
    let x = a.value();
    assert(t > 0 ==> x > 0) by (nonlinear_arith)
        requires
            t == x * u,
            u > 0,
    ;
    assert(t < 0 ==> x < 0) by (nonlinear_arith)
        requires
            t == x * u,
            u > 0,
    ;
    lemma_signed_nearness(q, y, t, b.value());
}

/// Turning over the sign of a divisor turns over the sign of the quotient, and nothing else.
pub proof fn law_quotient_by_the_opposite(a: Binary64, b: Binary64)
    requires
        !quotient_of(a, b).nan(),
    ensures
        quotient_of(a, opposite(b)) == opposite(quotient_of(a, b)),
{
    reveal(quotient_of);
    lemma_opposite(b);
    let v = Quantity::Ratio { num: magnitude(a.rank()) * unity(), den: magnitude(b.rank()) };
    lemma_nearest_exists(v);
    lemma_signed(true, INFINITE as int);
    lemma_signed(false, INFINITE as int);
    lemma_signed(true, 0);
    lemma_signed(false, 0);
    lemma_signed(true, nearest(v));
    lemma_signed(false, nearest(v));
}

/// No number is nearer to the exact square root than the root is: the exact one is not past the middle
/// between the root and any other number.
pub proof fn law_no_number_is_nearer_to_a_root(a: Binary64, y: Binary64)
    requires
        a.finite(),
        a.value() > 0,
        root_of(a).finite(),
        y.nonnegative(),
        y.finite(),
    ensures
        ({
            let r = root_of(a).value();
            let middle = r + y.value();
            &&& r >= 0
            &&& y.value() < r ==> middle * middle <= 4 * (a.value() * unity())
            &&& y.value() > r ==> 4 * (a.value() * unity()) <= middle * middle
        }),
{
    reveal(root_of);
    lemma_value_sign(a);
    lemma_value_sign(y);
    let square = magnitude(a.rank()) * unity();
    let v = Quantity::Root { square };
    lemma_nearest_exists(v);
    let k = nearest(v);
    lemma_signed(false, k);
    lemma_magnitude_sign(k);
    let r = magnitude(k);
    let j = y.rank();
    let z = magnitude(j);
    lemma_magnitude_sign(j);
    assert(y.value() == z) by {
        lemma_magnitude_sign(j);
    }
    if z < r {
        if j >= k {
            if j > k {
                lemma_magnitude_increases(k, j);
            }
        }
        assert(passes(v, k - 1));
        let mid = midpoint(k - 1);
        if j < k - 1 {
            lemma_magnitude_increases(j, k - 1);
        }
        lemma_magnitude_sign(k - 1);
        let m = r + z;
        assert(m * m <= mid * mid) by (nonlinear_arith)
            requires
                0 <= m <= mid,
        ;
    } else if z > r {
        if j <= k {
            if j < k {
                lemma_magnitude_increases(j, k);
            }
        }
        assert(!passes(v, k));
        let mid = midpoint(k);
        if j > k + 1 {
            lemma_magnitude_increases(k + 1, j);
        }
        lemma_magnitude_sign(k + 1);
        let m = r + z;
        assert(mid * mid <= m * m) by (nonlinear_arith)
            requires
                0 <= mid <= m,
        ;
    }
}

/// No number is nearer to a count than the number that it becomes.
pub proof fn law_no_number_is_nearer_to_a_count(n: int, y: Binary64)
    requires
        n >= 0,
        whole(n).finite(),
    ensures
        nearer(whole(n), y, n * unity(), 1),
{
    reveal(whole);
    lemma_constants();
    let u = unity();
    let t = n * u;
    assert(t >= 0) by (nonlinear_arith)
        requires
            t == n * u,
            n >= 0,
            u > 0,
    ;
    let v = Quantity::Ratio { num: t, den: 1 };
    lemma_nearest_exists(v);
    lemma_signed(false, nearest(v));
    lemma_signed_nearness(whole(n), y, t, 1);
}

/// What sums with special numbers are: a NaN stays one, infinities stay unless they cancel out, and
/// a sum of zero is negative only where both terms are.
pub proof fn law_special_sums(a: Binary64, b: Binary64)
    ensures
        sum_of(a, b).nan() <==> a.nan() || b.nan() || (a.infinite() && b.infinite() && a.negative()
            != b.negative()),
        a.infinite() && !sum_of(a, b).nan() ==> sum_of(a, b) == a,
        b.infinite() && !sum_of(a, b).nan() ==> sum_of(a, b) == b,
        a.finite() && b.finite() ==> (sum_of(a, b).infinite() <==> 2 * distance(
            a.value() + b.value(),
        ) >= midpoint(INFINITE - 1)),
        a.finite() && b.finite() && a.value() + b.value() == 0 ==> {
            &&& sum_of(a, b).zero()
            &&& sum_of(a, b).negative() == (a.negative() && b.negative())
        },
        a.finite() && b.finite() && a.value() + b.value() != 0 ==> sum_of(a, b).negative() == (
        a.value() + b.value() < 0),
{
    reveal(sum_of);
    let t = a.value() + b.value();
    let v = Quantity::Ratio { num: distance(t), den: 1 };
    lemma_nearest_exists(v);
    lemma_signed(t < 0, nearest(v));
    lemma_signed(a.negative() && b.negative(), 0);
    lemma_infinite(distance(t), 1);
    lemma_infinite(0, 1);
    lemma_magnitude_sign(INFINITE - 1);
    lemma_magnitude_sign(INFINITE as int);
}

/// Where rounding comes to infinity.
proof fn lemma_infinite(num: int, den: int)
    requires
        num >= 0,
        den > 0,
    ensures
        nearest(Quantity::Ratio { num, den }) == INFINITE <==> 2 * num >= midpoint(INFINITE - 1)
            * den,
{
    let v = Quantity::Ratio { num, den };
    lemma_nearest_exists(v);
    let r = nearest(v);
    let top = midpoint(INFINITE - 1);
    if r < INFINITE {
        assert(!passes(v, r));
        if r < INFINITE - 1 {
            lemma_midpoint_increases(r, INFINITE - 1);
            let mid = midpoint(r);
            assert(mid * den < top * den) by (nonlinear_arith)
                requires
                    mid < top,
                    den > 0,
            ;
        }
    }
}

/// What products with special numbers are: infinity times zero is no number, and otherwise an
/// infinity stays, with the sign that both factors make up.
pub proof fn law_special_products(a: Binary64, b: Binary64)
    ensures
        product_of(a, b).nan() <==> a.nan() || b.nan() || (a.infinite() && b.zero()) || (a.zero()
            && b.infinite()),
        (a.infinite() || b.infinite()) && !product_of(a, b).nan() ==> product_of(a, b).infinite(),
        a.finite() && b.finite() ==> (product_of(a, b).infinite() <==> 2 * distance(
            a.value() * b.value(),
        ) >= midpoint(INFINITE - 1) * unity()),
        !product_of(a, b).nan() ==> product_of(a, b).negative() == (a.negative() != b.negative()),
{
    reveal(product_of);
    lemma_constants();
    lemma_magnitude_sign(a.rank());
    lemma_magnitude_sign(b.rank());
    lemma_product_size(a.value(), b.value());
    let negative = a.negative() != b.negative();
    let v = Quantity::Ratio { num: magnitude(a.rank()) * magnitude(b.rank()), den: unity() };
    lemma_nearest_exists(v);
    lemma_signed(negative, INFINITE as int);
    lemma_signed(negative, nearest(v));
    lemma_infinite(distance(a.value() * b.value()), unity());
}

/// What quotients with special numbers are: neither zero by zero nor infinity by infinity is a
/// number, what is divided by zero is infinite, and what is divided by infinity is zero.
pub proof fn law_special_quotients(a: Binary64, b: Binary64)
    ensures
        quotient_of(a, b).nan() <==> a.nan() || b.nan() || (a.infinite() && b.infinite()) || (
        a.zero() && b.zero()),
        !quotient_of(a, b).nan() && (a.infinite() || b.zero()) ==> quotient_of(a, b).infinite(),
        !quotient_of(a, b).nan() && b.infinite() ==> quotient_of(a, b).zero(),
        a.finite() && b.finite() && !b.zero() ==> (quotient_of(a, b).infinite() <==> 2 * distance(
            a.value() * unity(),
        ) >= midpoint(INFINITE - 1) * distance(b.value())),
        !quotient_of(a, b).nan() ==> quotient_of(a, b).negative() == (a.negative()
            != b.negative()),
{
    reveal(quotient_of);
    lemma_constants();
    lemma_magnitude_sign(a.rank());
    lemma_magnitude_sign(b.rank());
    lemma_value_sign(b);
    lemma_product_size(a.value(), unity());
    let negative = a.negative() != b.negative();
    let v = Quantity::Ratio { num: magnitude(a.rank()) * unity(), den: magnitude(b.rank()) };
    lemma_nearest_exists(v);
    lemma_signed(negative, INFINITE as int);
    lemma_signed(negative, 0);
    lemma_signed(negative, nearest(v));
    if !b.zero() {
        lemma_infinite(distance(a.value() * unity()), distance(b.value()));
    }
}

/// What square roots of special numbers are: those of numbers below zero are no numbers, and zeros
/// and positive infinity are their own.
pub proof fn law_special_roots(a: Binary64)
    ensures
        root_of(a).nan() <==> a.nan() || a.value() < 0,
        a.value() == 0 ==> root_of(a) == a,
        a.infinite() && !a.negative() ==> root_of(a) == a,
{
    reveal(root_of);
    lemma_constants();
    lemma_value_sign(a);
    let v = Quantity::Root { square: magnitude(a.rank()) * unity() };
    lemma_nearest_exists(v);
    lemma_signed(false, nearest(v));
}

/// What is no number, and what lies below zero, makes no count.
pub proof fn law_special_counts(a: Binary64)
    ensures
        a.nan() || a.value() < 0 ==> nearest_count(a) == 0,
        a.value() == 0 ==> nearest_count(a) == 0,
{
    lemma_constants();
    lemma_value_sign(a);
    let u = unity();
    if a.value() == 0 && !a.nan() && !a.negative() {
        assert((2 * 0 + u) / (2 * u) == 0) by (nonlinear_arith)
            requires
                u > 0,
        ;
    }
}

} // verus!
