//! Closeness of results of either sign: relative to their own size, and relative to the size of
//! what they were added up from.

use vstd::prelude::*;

use crate::binary64::arithmetic::{distance, product_of, quotient_of, root_of, sum_of, unity};
use crate::binary64::closeness::{
    above, below, lemma_nearest_is_near, lemma_one_rounding, lemma_powers, lemma_powers_multiply,
    near, power,
};
use crate::binary64::errors::{law_sum_error, lemma_level_order, lemma_spacing_bounds};
use crate::binary64::laws::lemma_constants;
use crate::binary64::number::{lemma_signed, lemma_value_sign, of, Binary64, HUNDRED};
use crate::binary64::powers::{
    lemma_two_to_adds, lemma_two_to_positive, lemma_two_to_values, two_to,
};
use crate::binary64::rank::{
    lemma_magnitude_increases, lemma_magnitude_sign, lemma_magnitude_step, level, magnitude, BLOCK,
    INFINITE,
};
use crate::binary64::rounding::{lemma_nearest_exists, midpoint, nearest, passes, Quantity};
use crate::binary64::scaling::{product_unharmed, unharmed};

verus! {

/// `x` is not on the other side of zero than `num`.
pub open spec fn same_side(x: int, num: int) -> bool {
    &&& num >= 0 ==> x >= 0
    &&& num <= 0 ==> x <= 0
}

/// `x` is `num / den`, up to `n` roundings, whatever the sign.
pub open spec fn near_either_side(x: int, num: int, den: int, n: int) -> bool {
    &&& same_side(x, num)
    &&& near(distance(x), distance(num), den, n)
}

/// `x` is `num / den`, up to `n` roundings of something as large as `size / den`.
pub open spec fn around(x: int, num: int, den: int, size: int, n: int) -> bool {
    &&& distance(num) <= size
    &&& distance(x * den - num) * below(n) <= (above(n) - below(n)) * size
}

/// What is near zero is zero.
pub(crate) proof fn lemma_near_zero(x: int, den: int, n: int)
    requires
        near(x, 0, den, n),
        x >= 0,
        den > 0,
    ensures
        x == 0,
{
    lemma_powers(n);
    let l = below(n);
    assert(0 * above(n) == 0);
    if x > 0 {
        assert((x * den) * l > 0) by (nonlinear_arith)
            requires
                x > 0,
                den > 0,
                l >= 1,
        ;
    }
}

/// A result on the right side of zero is there if its size is near.
proof fn lemma_side(x: int, num: int, den: int, n: int)
    requires
        near(distance(x), distance(num), den, n),
        num > 0 ==> x >= 0,
        num < 0 ==> x <= 0,
        den > 0,
    ensures
        near_either_side(x, num, den, n),
{
    if num == 0 {
        lemma_near_zero(distance(x), den, n);
    }
}

/// What is near is around, relative to its own size.
pub proof fn lemma_near_is_around(x: int, num: int, den: int, n: int)
    requires
        near_either_side(x, num, den, n),
        den > 0,
    ensures
        around(x, num, den, distance(num), n),
{
    lemma_powers(n);
    let l = below(n);
    let h = above(n);
    let size = distance(num);
    let p = distance(x) * den;
    let e = distance(x * den - num);
    assert(e == distance(p - size)) by {
        assert((-x) * den == -(x * den)) by (nonlinear_arith);
        if num == 0 {
            lemma_near_zero(distance(x), den, n);
            assert(0 * den == 0);
        }
    }
    assert(e * l <= (h - l) * size) by {
        if p >= size {
            assert((p - size) * l <= (h - l) * size) by (nonlinear_arith)
                requires
                    p * l <= size * h,
            ;
        } else {
            assert((size - p) * l <= (h - l) * size) by (nonlinear_arith)
                requires
                    size * l <= p * h,
                    p <= size,
                    l <= h,
            ;
        }
    }
}

/// What is around up to some roundings is around up to more.
pub proof fn lemma_around_weakens(x: int, num: int, den: int, size: int, n: int, m: int)
    requires
        around(x, num, den, size, n),
        0 <= n <= m,
    ensures
        around(x, num, den, size, m),
{
    lemma_powers_multiply(n, m - n);
    let l = below(n);
    let h = above(n);
    let a = below(m - n);
    let b = above(m - n);
    let e = distance(x * den - num);
    assert(e * (l * a) <= (h * b - l * a) * size) by (nonlinear_arith)
        requires
            e * l <= (h - l) * size,
            1 <= a <= b,
            h >= 1,
            size >= 0,
    {
        assert((e * l) * a <= ((h - l) * size) * a);
        assert((h * a) * size <= (h * b) * size);
        assert(((h - l) * size) * a == (h * a) * size - (l * a) * size);
        assert((h * b - l * a) * size == (h * b) * size - (l * a) * size);
        assert(e * (l * a) == (e * l) * a);
    }
}

/// Sums are around sums.
pub proof fn lemma_around_sum(
    x: int,
    y: int,
    a: int,
    b: int,
    den: int,
    s: int,
    t: int,
    n: int,
)
    requires
        around(x, a, den, s, n),
        around(y, b, den, t, n),
    ensures
        around(x + y, a + b, den, s + t, n),
{
    lemma_powers(n);
    let l = below(n);
    let h = above(n);
    let d = distance(x * den - a);
    let e = distance(y * den - b);
    let f = distance((x + y) * den - (a + b));
    assert((x + y) * den == x * den + y * den) by (nonlinear_arith);
    assert(f <= d + e);
    assert(f * l <= d * l + e * l) by (nonlinear_arith)
        requires
            f <= d + e,
            l >= 1,
    ;
    assert((h - l) * (s + t) == (h - l) * s + (h - l) * t) by (nonlinear_arith);
}

/// A result that is near a multiple of something is around the multiple of what that is around.
pub proof fn lemma_around_multiple(
    x: int,
    z: int,
    c: int,
    d: int,
    num: int,
    den: int,
    size: int,
    r: int,
    n: int,
)
    requires
        around(x, z * c, d, distance(z * c), r),
        around(z, num, den, size, n),
        c >= 0,
        d > 0,
        den > 0,
        r >= 0,
        n >= 0,
    ensures
        around(x, num * c, den * d, size * c, n + r),
{
    lemma_powers_multiply(n, r);
    let ln = below(n);
    let hn = above(n);
    let lr = below(r);
    let hr = above(r);
    let a = x * d - z * c;
    let b = z * den - num;
    let e = distance(a);
    let f = distance(b);
    let t = distance(z * c);
    let whole_error = x * (den * d) - num * c;
    assert(whole_error == den * a + c * b) by (nonlinear_arith)
        requires
            whole_error == x * (den * d) - num * c,
            a == x * d - z * c,
            b == z * den - num,
    ;
    let g = distance(whole_error);
    assert(g <= den * e + c * f) by (nonlinear_arith)
        requires
            g == whole_error || g == -whole_error,
            whole_error == den * a + c * b,
            -e <= a <= e,
            -f <= b <= f,
            den > 0,
            c >= 0,
    ;
    assert(distance(num * c) <= size * c) by (nonlinear_arith)
        requires
            -size <= num <= size,
            c >= 0,
    ;
    // The size of the multiple, from that of what it is around.
    let top = size + f;
    assert(t * den <= c * top) by (nonlinear_arith)
        requires
            t == z * c || t == -(z * c),
            b == z * den - num,
            -f <= b <= f,
            -size <= num <= size,
            top == size + f,
            c >= 0,
    {
        assert((z * c) * den == c * (b + num));
        assert(-top <= b + num <= top);
    }
    assert(top * ln <= hn * size) by (nonlinear_arith)
        requires
            top == size + f,
            f * ln <= (hn - ln) * size,
    ;
    // Both errors over the common factor.
    let k = ln * lr;
    let cs = c * size;
    let first = (den * e) * k;
    let second = (c * f) * k;
    assert(first <= ((hr - lr) * (t * den)) * ln) by (nonlinear_arith)
        requires
            first == (den * e) * k,
            k == ln * lr,
            e * lr <= (hr - lr) * t,
            den > 0,
            ln >= 1,
    {
        assert((den * e) * (ln * lr) == (e * lr) * (den * ln));
        assert((e * lr) * (den * ln) <= ((hr - lr) * t) * (den * ln));
        assert(((hr - lr) * t) * (den * ln) == ((hr - lr) * (t * den)) * ln);
    }
    assert(((hr - lr) * (t * den)) * ln <= ((hr - lr) * hn) * cs) by (nonlinear_arith)
        requires
            t * den <= c * top,
            top * ln <= hn * size,
            cs == c * size,
            hr >= lr,
            ln >= 1,
            c >= 0,
    {
        assert((hr - lr) * (t * den) <= (hr - lr) * (c * top));
        assert(((hr - lr) * (t * den)) * ln <= ((hr - lr) * (c * top)) * ln);
        assert(((hr - lr) * (c * top)) * ln == ((hr - lr) * c) * (top * ln));
        assert((hr - lr) * c >= 0);
        assert(((hr - lr) * c) * (top * ln) <= ((hr - lr) * c) * (hn * size));
        assert(((hr - lr) * c) * (hn * size) == ((hr - lr) * hn) * (c * size));
    }
    assert(second <= ((hn - ln) * lr) * cs) by (nonlinear_arith)
        requires
            second == (c * f) * k,
            k == ln * lr,
            f * ln <= (hn - ln) * size,
            cs == c * size,
            c >= 0,
            lr >= 1,
    {
        assert((c * f) * (ln * lr) == (f * ln) * (c * lr));
        assert(c * lr >= 0);
        assert((f * ln) * (c * lr) <= ((hn - ln) * size) * (c * lr));
        assert(((hn - ln) * size) * (c * lr) == ((hn - ln) * lr) * (c * size));
    }
    assert(g * k <= first + second) by (nonlinear_arith)
        requires
            g <= den * e + c * f,
            first == (den * e) * k,
            second == (c * f) * k,
            k >= 0,
    ;
    assert(((hr - lr) * hn) * cs + ((hn - ln) * lr) * cs == (hn * hr - k) * cs) by (nonlinear_arith)
        requires
            k == ln * lr,
    ;
    assert(cs == size * c) by (nonlinear_arith)
        requires
            cs == c * size,
    ;
}

/// A common factor can be left out.
pub proof fn lemma_around_cancels(x: int, num: int, den: int, size: int, k: int, n: int)
    requires
        around(x, k * num, k * den, k * size, n),
        k > 0,
    ensures
        around(x, num, den, size, n),
{
    let l = below(n);
    let h = above(n);
    let a = x * den - num;
    let b = x * (k * den) - k * num;
    assert(b == k * a) by (nonlinear_arith)
        requires
            a == x * den - num,
            b == x * (k * den) - k * num,
    ;
    let d = distance(a);
    let e = distance(b);
    assert(e == k * d) by (nonlinear_arith)
        requires
            b == k * a,
            k > 0,
            a < 0 ==> d == -a,
            a >= 0 ==> d == a,
            b < 0 ==> e == -b,
            b >= 0 ==> e == b,
    ;
    assert(d * l <= (h - l) * size) by (nonlinear_arith)
        requires
            e == k * d,
            e * l <= (h - l) * (k * size),
            k > 0,
    {
        assert((k * d) * l == k * (d * l));
        assert((h - l) * (k * size) == k * ((h - l) * size));
    }
    let s = distance(num);
    assert(s <= size) by (nonlinear_arith)
        requires
            -(k * size) <= k * num <= k * size,
            s == num || s == -num,
            k > 0,
    ;
}

/// A sum is near the exact one.
pub proof fn law_sum_is_near_either_side(a: Binary64, b: Binary64)
    requires
        a.finite(),
        b.finite(),
        sum_of(a, b).finite(),
    ensures
        near_either_side(sum_of(a, b).value(), a.value() + b.value(), 1, 1),
{
    reveal(sum_of);
    law_sum_error(a, b);
    let s = sum_of(a, b).value();
    let t = a.value() + b.value();
    lemma_value_sign(sum_of(a, b));
    if t != 0 {
        let v = Quantity::Ratio { num: distance(t), den: 1 };
        lemma_nearest_exists(v);
        lemma_signed(t < 0, nearest(v));
        lemma_magnitude_sign(nearest(v));
    } else {
        lemma_signed(a.negative() && b.negative(), 0);
        lemma_magnitude_sign(0);
    }
    let x = distance(s);
    let e = distance(s - t);
    assert(x * 1 == x);
    let d = x * 1 - distance(t);
    assert(-e <= d <= e);
    assert(-x <= 2 * BLOCK * d <= x) by (nonlinear_arith)
        requires
            -e <= d <= e,
            2 * BLOCK * e <= x,
            BLOCK > 0,
    ;
    lemma_one_rounding(x, distance(t), 1);
    lemma_side(s, t, 1, 1);
}

/// The size of a product.
pub(crate) proof fn lemma_product_size(a: int, b: int)
    ensures
        distance(a * b) == distance(a) * distance(b),
{
    assert((-a) * b == -(a * b) && a * (-b) == -(a * b) && (-a) * (-b) == a * b)
        by (nonlinear_arith);
    assert(distance(a) * distance(b) >= 0) by (nonlinear_arith)
        requires
            distance(a) >= 0,
            distance(b) >= 0,
    ;
}

/// A product is near the exact one.
pub proof fn law_product_is_near_either_side(a: Binary64, b: Binary64)
    requires
        a.finite(),
        b.finite(),
        product_of(a, b).finite(),
        product_unharmed(a, b),
    ensures
        near_either_side(product_of(a, b).value(), a.value() * b.value(), unity(), 1),
{
    reveal(product_of);
    lemma_constants();
    lemma_value_sign(a);
    lemma_value_sign(b);
    let x = magnitude(a.rank());
    let y = magnitude(b.rank());
    lemma_magnitude_sign(a.rank());
    lemma_magnitude_sign(b.rank());
    let xy = x * y;
    assert(xy >= 0) by (nonlinear_arith)
        requires
            xy == x * y,
            x >= 0,
            y >= 0,
    ;
    let v = Quantity::Ratio { num: xy, den: unity() };
    let negative = a.negative() != b.negative();
    lemma_nearest_exists(v);
    lemma_signed(negative, nearest(v));
    lemma_magnitude_sign(nearest(v));
    lemma_nearest_is_near(xy, unity());
    let p = product_of(a, b).value();
    let t = a.value() * b.value();
    lemma_product_size(a.value(), b.value());
    assert(t == (if negative {
        -xy
    } else {
        xy
    })) by (nonlinear_arith)
        requires
            t == a.value() * b.value(),
            a.value() == (if a.negative() {
                -x
            } else {
                x
            }),
            b.value() == (if b.negative() {
                -y
            } else {
                y
            }),
            xy == x * y,
            negative == (a.negative() != b.negative()),
    ;
    lemma_side(p, t, unity(), 1);
}

/// A quotient by a positive number is near the exact one.
pub proof fn law_quotient_is_near_either_side(a: Binary64, b: Binary64)
    requires
        a.finite(),
        b.finite(),
        b.value() > 0,
        quotient_of(a, b).finite(),
        unharmed(distance(a.value()) * unity(), b.value()),
    ensures
        near_either_side(quotient_of(a, b).value(), a.value() * unity(), b.value(), 1),
{
    reveal(quotient_of);
    lemma_constants();
    let u = unity();
    lemma_value_sign(a);
    lemma_value_sign(b);
    let x = magnitude(a.rank());
    let y = magnitude(b.rank());
    lemma_magnitude_sign(a.rank());
    let xu = x * u;
    assert(xu >= 0) by (nonlinear_arith)
        requires
            xu == x * u,
            x >= 0,
            u > 0,
    ;
    let v = Quantity::Ratio { num: xu, den: y };
    lemma_nearest_exists(v);
    lemma_signed(a.negative(), nearest(v));
    lemma_magnitude_sign(nearest(v));
    lemma_nearest_is_near(xu, y);
    let t = a.value() * u;
    assert(t == (if a.negative() {
        -xu
    } else {
        xu
    })) by (nonlinear_arith)
        requires
            t == a.value() * u,
            a.value() == (if a.negative() {
                -x
            } else {
                x
            }),
            xu == x * u,
    ;
    lemma_side(quotient_of(a, b).value(), t, y, 1);
}

/// The square of a square root is near the number, up to two roundings.
pub proof fn law_root_is_near(a: Binary64)
    requires
        a.finite(),
        a.nonnegative(),
    ensures
        root_of(a).finite() ==> {
            &&& root_of(a).value() >= 0
            &&& near(root_of(a).value() * root_of(a).value(), a.value() * unity(), 1, 2)
        },
{
    reveal(root_of);
    lemma_constants();
    lemma_value_sign(a);
    lemma_value_sign(root_of(a));
    let u = unity();
    let m = magnitude(a.rank());
    lemma_magnitude_sign(a.rank());
    let square = m * u;
    if a.zero() {
        assert(0 * u == 0);
        assert(0int * 0int == 0);
        assert(0 * above(2) == 0 && 0 * below(2) == 0);
    } else {
        let v = Quantity::Root { square };
        assert(square >= u) by (nonlinear_arith)
            requires
                square == m * u,
                m >= 1,
                u > 0,
        ;
        lemma_nearest_exists(v);
        let r = nearest(v);
        lemma_signed(false, r);
        if root_of(a).finite() {
            lemma_root_rounding(square, r);
        }
    }
}

/// The square root of a finite number does not overflow.
pub proof fn law_root_is_finite(a: Binary64)
    requires
        a.finite(),
        a.nonnegative(),
    ensures
        root_of(a).finite(),
{
    reveal(root_of);
    lemma_constants();
    lemma_value_sign(a);
    lemma_value_sign(of(HUNDRED));
    if !a.zero() {
        let m = magnitude(a.rank());
        let u = unity();
        let square = m * u;
        let v = Quantity::Root { square };
        lemma_magnitude_sign(a.rank());
        assert(square >= 0) by (nonlinear_arith)
            requires
                square == m * u,
                m >= 0,
                u > 0,
        ;
        lemma_nearest_exists(v);
        let r = nearest(v);
        lemma_signed(false, r);
        if r == INFINITE {
            // The square of the largest number is far larger than what is rooted.
            let top = magnitude(INFINITE as int);
            let mid = midpoint(INFINITE - 1);
            lemma_magnitude_increases(a.rank(), INFINITE as int);
            lemma_magnitude_increases(of(HUNDRED).rank(), INFINITE as int);
            lemma_magnitude_sign(INFINITE - 1);
            assert(passes(v, INFINITE - 1));
            assert(mid * mid <= 4 * square);
            assert(mid * mid > 4 * square) by (nonlinear_arith)
                requires
                    mid >= top,
                    top > 100 * u,
                    0 <= m < top,
                    square == m * u,
                    u > 0,
            {
                assert(mid * mid >= top * top);
                assert(top * top >= top * (100 * u));
                assert(top * u > m * u);
            }
        }
    }
}

/// The square of a rounded square root.
proof fn lemma_root_rounding(square: int, r: int)
    requires
        square >= unity(),
        r == nearest(Quantity::Root { square }),
        r < INFINITE,
    ensures
        near(magnitude(r) * magnitude(r), square, 1, 2),
{
    let v = Quantity::Root { square };
    lemma_constants();
    lemma_nearest_exists(v);
    lemma_spacing_bounds(r);
    lemma_magnitude_step(r);
    lemma_magnitude_sign(r);
    let x = magnitude(r);
    let s = two_to(level(r));
    let b: int = BLOCK as int;
    assert(!v.above(midpoint(r)));
    let up = 2 * x + s;
    assert(up * up >= 4 * square);
    lemma_two_to_values();
    lemma_two_to_adds(52, 1022);
    lemma_two_to_adds(52, 970);
    lemma_two_to_adds(52, 918);
    lemma_two_to_positive(918);
    let p = two_to(918);
    assert(square >= b * (b * (b * p)));
    if s == 1 {
        assert(up * up < 4 * square) by (nonlinear_arith)
            requires
                up == 2 * x + s,
                s == 1,
                0 <= x < 2 * b * s,
                square >= b * (b * (b * p)),
                p >= 1,
                b == 0x10_0000_0000_0000,
        {
            assert(0 <= up <= 4 * b);
            assert(up * up <= 16 * (b * b));
            assert(b * (b * (b * p)) == (b * b) * (b * p));
            assert(b * p >= b);
            assert((b * b) * (b * p) >= (b * b) * b);
        }
    }
    assert(b * s <= x);
    assert(r > 0) by {
        if r == 0 {
            lemma_magnitude_sign(0);
        }
    }
    lemma_magnitude_step(r - 1);
    lemma_level_order(r - 1, r);
    lemma_spacing_bounds(r - 1);
    let t = two_to(level(r - 1));
    assert(passes(v, r - 1));
    let down = 2 * x - t;
    assert(down * down <= 4 * square) by {
        assert(down >= 0) by (nonlinear_arith)
            requires
                down == 2 * x - t,
                1 <= t <= s,
                b * s <= x,
                b >= 1,
        ;
    }
    lemma_root_bounds(x, s, t, square);
}

/// Two roundings cover a square root that is right up to half a spacing.
proof fn lemma_root_bounds(x: int, s: int, t: int, square: int)
    requires
        BLOCK * s <= x,
        1 <= t <= s,
        (2 * x + s) * (2 * x + s) >= 4 * square,
        (2 * x - t) * (2 * x - t) <= 4 * square,
    ensures
        near(x * x, square, 1, 2),
{
    reveal_with_fuel(power, 3);
    let b: int = BLOCK as int;
    let c = b + 1;
    assert(below(2) == b * (b * 1) && above(2) == c * (c * 1));
    let bb = b * b;
    let cc = c * c;
    assert(b * (b * 1) == bb && c * (c * 1) == cc) by (nonlinear_arith)
        requires
            bb == b * b,
            cc == c * c,
    ;
    // From above: twice the root, times `b`, is at most `x * (2 * b + 1)`.
    let up = (2 * x + s) * b;
    assert(0 <= up <= 2 * (x * c)) by (nonlinear_arith)
        requires
            up == (2 * x + s) * b,
            b * s <= x,
            c == b + 1,
            s >= 1,
            b >= 1,
    ;
    let xx = x * x;
    assert(square * bb <= xx * cc) by (nonlinear_arith)
        requires
            (2 * x + s) * (2 * x + s) >= 4 * square,
            up == (2 * x + s) * b,
            0 <= up <= 2 * (x * c),
            bb == b * b,
            cc == c * c,
            xx == x * x,
            b >= 1,
    {
        assert(up * up == ((2 * x + s) * (2 * x + s)) * bb);
        assert(((2 * x + s) * (2 * x + s)) * bb >= (4 * square) * bb) by (nonlinear_arith)
            requires
                (2 * x + s) * (2 * x + s) >= 4 * square,
                bb == b * b,
                b >= 1,
        ;
        assert(up * up <= (2 * (x * c)) * (2 * (x * c)));
        assert((2 * (x * c)) * (2 * (x * c)) == 4 * (xx * cc));
        assert((4 * square) * bb == 4 * (square * bb));
    }
    // From below: twice the root, times `c`, is at least `2 * b * x`.
    let down = (2 * x - t) * c;
    assert(down >= 2 * (x * b)) by (nonlinear_arith)
        requires
            down == (2 * x - t) * c,
            b * s <= x,
            t <= s,
            c == b + 1,
            s >= 1,
            b >= 1,
    {
        assert(down == 2 * (x * b) + 2 * x - t * b - t);
        assert(t * b <= b * s);
        assert(s <= b * s);
    }
    assert(xx * bb <= square * cc) by (nonlinear_arith)
        requires
            (2 * x - t) * (2 * x - t) <= 4 * square,
            down == (2 * x - t) * c,
            down >= 2 * (x * b),
            x * b >= 0,
            bb == b * b,
            cc == c * c,
            xx == x * x,
            c >= 1,
    {
        assert(down * down == ((2 * x - t) * (2 * x - t)) * cc);
        assert(((2 * x - t) * (2 * x - t)) * cc <= (4 * square) * cc) by (nonlinear_arith)
            requires
                (2 * x - t) * (2 * x - t) <= 4 * square,
                cc == c * c,
                c >= 1,
        ;
        assert(down * down >= (2 * (x * b)) * (2 * (x * b)));
        assert((2 * (x * b)) * (2 * (x * b)) == 4 * (xx * bb));
        assert((4 * square) * cc == 4 * (square * cc));
    }
    assert(xx * 1 == xx);
}

} // verus!
