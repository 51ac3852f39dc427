//! Relative closeness: results that a number of roundings keep near an exact quotient.

use vstd::prelude::*;

use crate::binary64::arithmetic::{product_of, quotient_of, sum_of, unity, whole};
use crate::binary64::errors::{law_sum_error, lemma_nearest_error, lemma_spacing_bounds};
use crate::binary64::laws::{
    law_exact_quotient_is_kept, law_product_of_nonnegative, law_quotient_of_nonnegative,
    law_sum_of_nonnegative, law_whole_is_finite, lemma_constants,
};
use crate::binary64::number::{lemma_signed, lemma_value_sign, Binary64};
use crate::binary64::powers::{
    lemma_two_to_adds, lemma_two_to_positive, lemma_two_to_values, two_to,
};
use crate::binary64::rank::{
    lemma_magnitude_sign, lemma_rank_bounds, level, magnitude, BLOCK, INFINITE,
};
use crate::binary64::rounding::{lemma_nearest_exists, nearest, Quantity};
use crate::binary64::scaling::{product_unharmed, unharmed};

verus! {

/// `b` to the power of `n`.
pub open spec fn power(b: int, n: int) -> int
    decreases n,
{
    if n <= 0 {
        1
    } else {
        b * power(b, n - 1)
    }
}

/// Two to the power of 52, `n` times a factor.
pub open spec fn below(n: int) -> int {
    power(BLOCK as int, n)
}

/// Two to the power of 52 and one, `n` times a factor. Over `below` this is what `n` roundings
/// can come to, at two to the power of minus 52 each.
pub open spec fn above(n: int) -> int {
    power(BLOCK + 1, n)
}

/// `x` is `num / den`, up to `n` roundings.
pub open spec fn near(x: int, num: int, den: int, n: int) -> bool {
    &&& (x * den) * below(n) <= num * above(n)
    &&& num * below(n) <= (x * den) * above(n)
}

/// `x` and `y` are equal up to `n` roundings.
pub open spec fn agree(x: int, y: int, n: int) -> bool {
    &&& x * below(n) <= y * above(n)
    &&& y * below(n) <= x * above(n)
}

proof fn lemma_power_adds(b: int, m: int, n: int)
    requires
        m >= 0,
        n >= 0,
    ensures
        power(b, m + n) == power(b, m) * power(b, n),
    decreases n,
{
    let x = power(b, m);
    if n > 0 {
        lemma_power_adds(b, m, n - 1);
        let y = power(b, n - 1);
        assert(b * (x * y) == x * (b * y)) by (nonlinear_arith);
    } else {
        assert(x * 1 == x);
    }
}

pub(crate) proof fn lemma_powers(n: int)
    ensures
        1 <= below(n) <= above(n),
    decreases n,
{
    if n > 0 {
        lemma_powers(n - 1);
        let x = below(n - 1);
        let y = above(n - 1);
        assert(1 <= BLOCK * x <= (BLOCK + 1) * y) by (nonlinear_arith)
            requires
                1 <= x <= y,
                BLOCK >= 1,
        ;
    }
}

/// Powers of both kinds multiply.
pub(crate) proof fn lemma_powers_multiply(m: int, n: int)
    requires
        m >= 0,
        n >= 0,
    ensures
        below(m + n) == below(m) * below(n),
        above(m + n) == above(m) * above(n),
        1 <= below(m) <= above(m),
        1 <= below(n) <= above(n),
{
    lemma_power_adds(BLOCK as int, m, n);
    lemma_power_adds(BLOCK + 1, m, n);
    lemma_powers(m);
    lemma_powers(n);
}

/// An exact quotient is near without a rounding.
pub proof fn lemma_near_exact(x: int, num: int, den: int)
    requires
        x * den == num,
    ensures
        near(x, num, den, 0),
{
}

/// What is near up to some roundings is near up to more.
pub proof fn lemma_near_weakens(x: int, num: int, den: int, n: int, m: int)
    requires
        near(x, num, den, n),
        0 <= n <= m,
        x >= 0,
        num >= 0,
        den > 0,
    ensures
        near(x, num, den, m),
{
    lemma_powers_multiply(n, m - n);
    let a = below(n);
    let b = below(m - n);
    let c = above(n);
    let d = above(m - n);
    let xd = x * den;
    assert(xd >= 0) by (nonlinear_arith)
        requires
            xd == x * den,
            x >= 0,
            den > 0,
    ;
    assert(xd * (a * b) <= num * (c * d)) by (nonlinear_arith)
        requires
            xd * a <= num * c,
            1 <= b <= d,
            num >= 0,
            c >= 1,
            a >= 1,
            xd >= 0,
    ;
    assert(num * (a * b) <= xd * (c * d)) by (nonlinear_arith)
        requires
            num * a <= xd * c,
            1 <= b <= d,
            xd >= 0,
            c >= 1,
            a >= 1,
            num >= 0,
    ;
}

/// Near to a multiple of what is near.
pub proof fn lemma_near_multiple(
    x: int,
    y: int,
    c: int,
    d: int,
    num: int,
    den: int,
    n: int,
    m: int,
)
    requires
        near(x, y * c, d, n),
        near(y, num, den, m),
        n >= 0,
        m >= 0,
        x >= 0,
        y >= 0,
        c >= 0,
        d > 0,
        num >= 0,
        den > 0,
    ensures
        near(x, num * c, den * d, n + m),
{
    lemma_powers_multiply(n, m);
    let ln = below(n);
    let lm = below(m);
    let hn = above(n);
    let hm = above(m);
    let xd = x * d;
    let yc = y * c;
    let yd = y * den;
    assert(x * (den * d) == xd * den) by (nonlinear_arith)
        requires
            xd == x * d,
    ;
    let p = xd * den;
    let q = num * c;
    let r = yc * den;
    assert(r == yd * c) by (nonlinear_arith)
        requires
            r == yc * den,
            yc == y * c,
            yd == y * den,
    ;
    // p * ln <= r * hn and r * lm <= q * hm.
    assert(p * ln <= r * hn) by (nonlinear_arith)
        requires
            xd * ln <= yc * hn,
            p == xd * den,
            r == yc * den,
            den > 0,
    ;
    assert(r * lm <= q * hm) by (nonlinear_arith)
        requires
            yd * lm <= num * hm,
            r == yd * c,
            q == num * c,
            c >= 0,
    ;
    assert(r * ln <= p * hn) by (nonlinear_arith)
        requires
            yc * ln <= xd * hn,
            p == xd * den,
            r == yc * den,
            den > 0,
    ;
    assert(q * lm <= r * hm) by (nonlinear_arith)
        requires
            num * lm <= yd * hm,
            r == yd * c,
            q == num * c,
            c >= 0,
    ;
    lemma_chain(p, r, q, ln, lm, hn, hm);
    lemma_chain(q, r, p, lm, ln, hm, hn);
    assert(ln * lm == lm * ln && hn * hm == hm * hn) by (nonlinear_arith);
}

/// Two bounds in a row.
proof fn lemma_chain(p: int, r: int, q: int, ln: int, lm: int, hn: int, hm: int)
    requires
        p * ln <= r * hn,
        r * lm <= q * hm,
        ln >= 1,
        lm >= 1,
        hn >= 1,
        hm >= 1,
    ensures
        p * (ln * lm) <= q * (hn * hm),
{
    assert(p * (ln * lm) <= (r * hn) * lm) by (nonlinear_arith)
        requires
            p * ln <= r * hn,
            lm >= 1,
    ;
    assert((r * hn) * lm == (r * lm) * hn) by (nonlinear_arith);
    assert((r * lm) * hn <= (q * hm) * hn) by (nonlinear_arith)
        requires
            r * lm <= q * hm,
            hn >= 1,
    ;
    assert((q * hm) * hn == q * (hn * hm)) by (nonlinear_arith);
}

/// Near to a quotient by what is near.
pub proof fn lemma_near_quotient(
    x: int,
    p: int,
    y: int,
    num: int,
    den: int,
    n: int,
    m: int,
)
    requires
        near(x, p, y, n),
        near(y, num, den, m),
        n >= 0,
        m >= 0,
        x >= 0,
        p >= 0,
        y > 0,
        num > 0,
        den > 0,
    ensures
        near(x, p * den, num, n + m),
{
    lemma_powers_multiply(n, m);
    let ln = below(n);
    let lm = below(m);
    let hn = above(n);
    let hm = above(m);
    let xy = x * y;
    let yd = y * den;
    let a = x * num;
    let b = p * den;
    let r = xy * den;
    assert(r == x * yd) by (nonlinear_arith)
        requires
            r == xy * den,
            xy == x * y,
            yd == y * den,
    ;
    assert(a * lm <= r * hm) by (nonlinear_arith)
        requires
            num * lm <= yd * hm,
            a == x * num,
            r == x * yd,
            x >= 0,
    ;
    assert(r * ln <= b * hn) by (nonlinear_arith)
        requires
            xy * ln <= p * hn,
            r == xy * den,
            b == p * den,
            den > 0,
    ;
    assert(b * ln <= r * hn) by (nonlinear_arith)
        requires
            p * ln <= xy * hn,
            r == xy * den,
            b == p * den,
            den > 0,
    ;
    assert(r * lm <= a * hm) by (nonlinear_arith)
        requires
            yd * lm <= num * hm,
            a == x * num,
            r == x * yd,
            x >= 0,
    ;
    lemma_chain(a, r, b, lm, ln, hm, hn);
    lemma_chain(b, r, a, ln, lm, hn, hm);
    assert(ln * lm == lm * ln && hn * hm == hm * hn) by (nonlinear_arith);
}

/// Sums of what is near.
pub proof fn lemma_near_sum(x: int, y: int, a: int, b: int, den: int, n: int)
    requires
        near(x, a, den, n),
        near(y, b, den, n),
    ensures
        near(x + y, a + b, den, n),
{
    let l = below(n);
    let h = above(n);
    assert(((x + y) * den) * l == (x * den) * l + (y * den) * l) by (nonlinear_arith);
    assert(((x + y) * den) * h == (x * den) * h + (y * den) * h) by (nonlinear_arith);
    assert((a + b) * l == a * l + b * l && (a + b) * h == a * h + b * h) by (nonlinear_arith);
}

/// Squares are near squares, up to twice the roundings.
pub proof fn lemma_near_square(x: int, num: int, den: int, n: int)
    requires
        near(x, num, den, n),
        n >= 0,
        x >= 0,
        num >= 0,
        den > 0,
    ensures
        near(x * x, num * num, den * den, 2 * n),
{
    lemma_powers_multiply(n, n);
    let l = below(n);
    let h = above(n);
    let p = x * den;
    assert(p >= 0) by (nonlinear_arith)
        requires
            p == x * den,
            x >= 0,
            den > 0,
    ;
    assert((x * x) * (den * den) == p * p) by (nonlinear_arith)
        requires
            p == x * den,
    ;
    lemma_squares_keep_order(p, l, num, h);
    lemma_squares_keep_order(num, l, p, h);
}

proof fn lemma_squares_keep_order(a: int, l: int, b: int, h: int)
    requires
        a * l <= b * h,
        a >= 0,
        l >= 0,
    ensures
        (a * a) * (l * l) <= (b * b) * (h * h),
{
    let p = a * l;
    let q = b * h;
    assert(p >= 0) by (nonlinear_arith)
        requires
            p == a * l,
            a >= 0,
            l >= 0,
    ;
    assert(p * p <= q * q) by (nonlinear_arith)
        requires
            0 <= p <= q,
    ;
    assert((a * a) * (l * l) == p * p) by (nonlinear_arith)
        requires
            p == a * l,
    ;
    assert((b * b) * (h * h) == q * q) by (nonlinear_arith)
        requires
            q == b * h,
    ;
}

/// A common factor of both terms can be left out.
pub proof fn lemma_near_cancels(x: int, num: int, den: int, k: int, n: int)
    requires
        near(x, k * num, k * den, n),
        k > 0,
    ensures
        near(x, num, den, n),
{
    let l = below(n);
    let h = above(n);
    let xd = x * den;
    assert((x * (k * den)) * l == k * (xd * l)) by (nonlinear_arith)
        requires
            xd == x * den,
    ;
    assert((x * (k * den)) * h == k * (xd * h)) by (nonlinear_arith)
        requires
            xd == x * den,
    ;
    assert((k * num) * l == k * (num * l) && (k * num) * h == k * (num * h)) by (nonlinear_arith);
    assert(xd * l <= num * h) by (nonlinear_arith)
        requires
            k * (xd * l) <= k * (num * h),
            k > 0,
    ;
    assert(num * l <= xd * h) by (nonlinear_arith)
        requires
            k * (num * l) <= k * (xd * h),
            k > 0,
    ;
}

/// Two numbers near the same quotient agree.
pub proof fn lemma_near_agrees(x: int, y: int, num: int, den: int, n: int, m: int)
    requires
        near(x, num, den, n),
        near(y, num, den, m),
        n >= 0,
        m >= 0,
        den > 0,
    ensures
        agree(x, y, n + m),
{
    lemma_powers_multiply(n, m);
    let ln = below(n);
    let lm = below(m);
    let hn = above(n);
    let hm = above(m);
    lemma_chain(x * den, num, y * den, ln, lm, hn, hm);
    lemma_chain(y * den, num, x * den, lm, ln, hm, hn);
    assert(ln * lm == lm * ln && hn * hm == hm * hn) by (nonlinear_arith);
    let l = ln * lm;
    let h = hn * hm;
    assert(x * l <= y * h) by (nonlinear_arith)
        requires
            (x * den) * l <= (y * den) * h,
            den > 0,
    ;
    assert(y * l <= x * h) by (nonlinear_arith)
        requires
            (y * den) * l <= (x * den) * h,
            den > 0,
    ;
}

/// One rounding that is small against the result, or against the exact quotient.
pub(crate) proof fn lemma_one_rounding(x: int, num: int, den: int)
    requires
        x >= 0,
        num >= 0,
        den > 0,
        ({
            let t = x * den - num;
            ||| -(x * den) <= 2 * BLOCK * t <= x * den
            ||| -num <= 2 * BLOCK * t <= num
        }),
    ensures
        near(x, num, den, 1),
{
    reveal_with_fuel(power, 2);
    let p = x * den;
    let t = p - num;
    assert(p >= 0) by (nonlinear_arith)
        requires
            p == x * den,
            x >= 0,
            den > 0,
    ;
    assert(below(1) == BLOCK && above(1) == BLOCK + 1);
    assert(p * BLOCK <= num * (BLOCK + 1) && num * BLOCK <= p * (BLOCK + 1)) by (nonlinear_arith)
        requires
            t == p - num,
            -p <= 2 * BLOCK * t <= p || -num <= 2 * BLOCK * t <= num,
            p >= 0,
            num >= 0,
            BLOCK == 0x10_0000_0000_0000,
    ;
}

/// A rounded quotient that does not underflow is near, and is a number.
pub(crate) proof fn lemma_nearest_is_near(num: int, den: int)
    requires
        num >= 0,
        den > 0,
        unharmed(num, den),
        nearest(Quantity::Ratio { num, den }) < INFINITE,
    ensures
        near(magnitude(nearest(Quantity::Ratio { num, den })), num, den, 1),
{
    let r = nearest(Quantity::Ratio { num, den });
    lemma_nearest_exists(Quantity::Ratio { num, den });
    lemma_nearest_error(num, den);
    lemma_spacing_bounds(r);
    lemma_magnitude_sign(r);
    let x = magnitude(r);
    let s = two_to(level(r));
    let p = x * den;
    let t = p - num;
    assert(p >= 0) by (nonlinear_arith)
        requires
            p == x * den,
            x >= 0,
            den > 0,
    ;
    if num == p {
        assert(2 * BLOCK * t == 0) by (nonlinear_arith)
            requires
                t == 0,
        ;
    } else if s == 1 {
        assert(-num <= 2 * BLOCK * t <= num) by (nonlinear_arith)
            requires
                -(1 * den) <= 2 * t <= 1 * den,
                BLOCK * den <= num,
                BLOCK == 0x10_0000_0000_0000,
        ;
    } else {
        assert(-p <= 2 * BLOCK * t <= p) by (nonlinear_arith)
            requires
                -(s * den) <= 2 * t <= s * den,
                BLOCK * s <= x,
                p == x * den,
                den > 0,
                BLOCK == 0x10_0000_0000_0000,
        ;
    }
    lemma_one_rounding(x, num, den);
}

/// A product of numbers that are not negative is near the exact one.
pub proof fn law_product_is_near(a: Binary64, b: Binary64)
    requires
        a.nonnegative(),
        b.nonnegative(),
        a.finite(),
        b.finite(),
        product_of(a, b).finite(),
        product_unharmed(a, b),
    ensures
        product_of(a, b).value() >= 0,
        near(product_of(a, b).value(), a.value() * b.value(), unity(), 1),
{
    reveal(product_of);
    lemma_constants();
    law_product_of_nonnegative(a, b);
    lemma_value_sign(a);
    lemma_value_sign(b);
    lemma_value_sign(product_of(a, b));
    let x = magnitude(a.rank());
    let y = magnitude(b.rank());
    lemma_magnitude_sign(a.rank());
    lemma_magnitude_sign(b.rank());
    assert(x * y >= 0) by (nonlinear_arith)
        requires
            x >= 0,
            y >= 0,
    ;
    let v = Quantity::Ratio { num: x * y, den: unity() };
    lemma_nearest_exists(v);
    lemma_signed(a.negative() != b.negative(), nearest(v));
    lemma_magnitude_sign(nearest(v));
    lemma_nearest_is_near(x * y, unity());
}

/// A quotient of a number that is not negative by a positive one is near the exact one.
pub proof fn law_quotient_is_near(a: Binary64, b: Binary64)
    requires
        a.nonnegative(),
        a.finite(),
        b.finite(),
        b.value() > 0,
        quotient_of(a, b).finite(),
        unharmed(a.value() * unity(), b.value()),
    ensures
        quotient_of(a, b).value() >= 0,
        near(quotient_of(a, b).value(), a.value() * unity(), b.value(), 1),
{
    reveal(quotient_of);
    lemma_constants();
    law_quotient_of_nonnegative(a, b);
    lemma_value_sign(a);
    lemma_value_sign(b);
    lemma_value_sign(quotient_of(a, b));
    let x = magnitude(a.rank());
    let y = magnitude(b.rank());
    lemma_magnitude_sign(a.rank());
    assert(x * unity() >= 0) by (nonlinear_arith)
        requires
            x >= 0,
            unity() > 0,
    ;
    let v = Quantity::Ratio { num: x * unity(), den: y };
    lemma_nearest_exists(v);
    lemma_signed(a.negative() != b.negative(), nearest(v));
    lemma_magnitude_sign(nearest(v));
    lemma_nearest_is_near(x * unity(), y);
}

/// A sum of numbers that are not negative is near the exact one.
pub proof fn law_sum_is_near(a: Binary64, b: Binary64)
    requires
        a.nonnegative(),
        b.nonnegative(),
        a.finite(),
        b.finite(),
        sum_of(a, b).finite(),
    ensures
        sum_of(a, b).value() >= 0,
        near(sum_of(a, b).value(), a.value() + b.value(), 1, 1),
{
    law_sum_of_nonnegative(a, b);
    law_sum_error(a, b);
    let x = sum_of(a, b).value();
    assert(x * 1 == x);
    lemma_one_rounding(x, a.value() + b.value(), 1);
}

/// A number of values, and that times a factor: near each other up to two roundings.
pub proof fn law_whole_multiple_is_near(c: int, k: int)
    requires
        c >= 0,
        k >= 1,
        k * c <= u64::MAX,
    ensures
        near(whole(k * c).value(), k * whole(c).value(), 1, 2),
{
    lemma_constants();
    assert(0 <= c <= k * c) by (nonlinear_arith)
        requires
            c >= 0,
            k >= 1,
    ;
    lemma_whole_is_near(c);
    lemma_whole_is_near(k * c);
    law_whole_is_finite(c);
    law_whole_is_finite(k * c);
    let x = whole(c).value();
    let y = whole(k * c).value();
    let u = unity();
    lemma_powers_multiply(1, 1);
    let l = below(1);
    let h = above(1);
    let cu = c * u;
    let kcu = (k * c) * u;
    assert(kcu == k * cu) by (nonlinear_arith)
        requires
            kcu == (k * c) * u,
            cu == c * u,
    ;
    assert(x * 1 == x && y * 1 == y);
    assert((k * cu) * l <= (k * x) * h) by (nonlinear_arith)
        requires
            cu * l <= x * h,
            k >= 1,
    ;
    assert((k * x) * l <= (k * cu) * h) by (nonlinear_arith)
        requires
            x * l <= cu * h,
            k >= 1,
    ;
    lemma_chain(y, kcu, k * x, l, l, h, h);
    lemma_chain(k * x, kcu, y, l, l, h, h);
}

/// A number of values as a number is the count, up to one rounding.
pub proof fn lemma_whole_is_near(n: int)
    requires
        0 <= n <= u64::MAX,
    ensures
        near(whole(n).value(), n * unity(), 1, 1),
{
    reveal(whole);
    lemma_constants();
    law_whole_is_finite(n);
    lemma_two_to_positive(1022);
    lemma_two_to_adds(52, 1022);
    lemma_two_to_values();
    let u = unity();
    let num = n * u;
    let v = Quantity::Ratio { num, den: 1 };
    assert(num >= 0) by (nonlinear_arith)
        requires
            num == n * u,
            n >= 0,
            u > 0,
    ;
    lemma_nearest_exists(v);
    lemma_signed(false, nearest(v));
    if n == 0 {
        assert(num == 0) by (nonlinear_arith)
            requires
                num == n * u,
                n == 0,
        ;
        lemma_rank_bounds(0);
        law_exact_quotient_is_kept(0, 1, 0);
    } else {
        let p = two_to(1022);
        assert(BLOCK * 1 <= num) by (nonlinear_arith)
            requires
                num == n * u,
                n >= 1,
                u == BLOCK * p,
                p >= 1,
                BLOCK > 0,
        ;
    }
    lemma_nearest_is_near(num, 1);
}

} // verus!
