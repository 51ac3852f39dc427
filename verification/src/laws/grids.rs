//! Grids: their edges and the middles of their bins lie evenly between the two ends.

use vstd::prelude::*;

use crate::binary64::arithmetic::{
    difference_of, distance, product_of, quotient_of, sum_of, unity, whole,
};
use crate::binary64::deviation::lemma_product_size;
use crate::binary64::errors::{
    ceiling, law_product_error, law_product_overflows_when_huge, law_quotient_error, law_sum_error,
    law_sum_overflows_when_huge, lemma_ceiling, lemma_spacing, spacing,
};
use crate::binary64::laws::{
    law_difference_is_a_number, law_difference_of_ordered, law_finite_between, law_finite_product,
    law_finite_sum, law_finite_terms, law_product_keeps_order, law_product_of_nonnegative,
    law_quotient_by_one_or_more_is_finite, law_quotient_of_nonnegative, law_sum_keeps_order,
    law_sum_respects_bounds, law_whole_is_exact, law_whole_keeps_order, law_whole_one,
    law_zero_is_neutral, lemma_constants,
};
use crate::binary64::number::{lemma_opposite, lemma_signed, of, opposite, HALF};
use crate::binary64::powers::{lemma_two_to_increases, lemma_two_to_values};
use crate::binary64::rank::{BLOCK, INFINITE};
use crate::binary64::Binary64;
use crate::density::{grid_at, step_of};
use crate::kernel::center_at;
use crate::laws::round_trip::larger;

verus! {

/// What the roundings of a place on a grid add up to. `a` and `b` are the ends, `d` their rounded
/// distance, `x` the rounded width of one of `n` bins, `m` the number of bins before the place,
/// `p` the rounded distance of the place from the lower end, `g` the rounded place; twice the
/// number of bins before the exact place is `j`.
proof fn lemma_place_roundings(
    u: int,
    s: int,
    n: int,
    j: int,
    a: int,
    b: int,
    d: int,
    x: int,
    sx: int,
    m: int,
    p: int,
    sp: int,
    g: int,
)
    requires
        u > 0,
        s >= 1,
        distance(a) < 0x20_0000_0000_0000 * s,
        distance(b) < 0x20_0000_0000_0000 * s,
        1 <= n <= 0x7FFF_FFFF,
        0 <= j <= 2 * n,
        0x20_0000_0000_0000 * distance(d - (b - a)) <= distance(d),
        2 * distance(x * n - d) <= sx * n,
        sx == 1 || 0x10_0000_0000_0000 * sx <= distance(x),
        0x20_0000_0000_0000 * distance(2 * m - j * u) <= distance(2 * m),
        2 * distance(p * u - m * x) <= sp * u,
        sp == 1 || 0x10_0000_0000_0000 * sp <= distance(p),
        0x20_0000_0000_0000 * distance(g - (a + p)) <= distance(g),
    ensures
        distance(2 * n * g - (2 * n * a + j * (b - a))) <= 2 * n * (20 * s + n),
{
    let far = b - a;
    let e = d - far;
    assert(-(3 * s) <= e <= 3 * s);
    // The width.
    let y = x * n;
    let z = sx * n;
    let f = y - d;
    assert(-(3 * s + n) <= f <= 3 * s + n) by {
        if sx == 1 {
            assert(z == n);
        } else {
            lemma_product_size(x, n);
            assert(0x10_0000_0000_0000 * z <= distance(y)) by (nonlinear_arith)
                requires
                    0x10_0000_0000_0000 * sx <= distance(x),
                    z == sx * n,
                    distance(y) == distance(x) * n,
                    n >= 1,
            ;
        }
    }
    let ay = distance(y);
    assert(ay <= 0x50_0000_0000_0000 * s);
    // The number of bins, times the width.
    let q = m * x;
    let r = 2 * m - j * u;
    let ax = distance(x);
    lemma_product_size(x, n);
    lemma_product_size(r, x);
    let ju = j * u;
    assert(0 <= ju <= 2 * (n * u)) by (nonlinear_arith)
        requires
            ju == j * u,
            0 <= j <= 2 * n,
            u > 0,
    ;
    let ar = distance(r);
    assert(0x1F_FFFF_FFFF_FFFF * ar <= ju);
    let arx = ar * ax;
    let us = u * s;
    assert(us >= u) by (nonlinear_arith)
        requires
            us == u * s,
            s >= 1,
            u > 0,
    ;
    let yu = ay * u;
    assert(0x1F_FFFF_FFFF_FFFF * arx <= 2 * yu) by (nonlinear_arith)
        requires
            0x1F_FFFF_FFFF_FFFF * ar <= ju,
            ju <= 2 * (n * u),
            ay == ax * n,
            yu == ay * u,
            arx == ar * ax,
            ax >= 0,
    {
        assert((0x1F_FFFF_FFFF_FFFF * ar) * ax <= (2 * (n * u)) * ax);
        assert((2 * (n * u)) * ax == 2 * ((ax * n) * u));
        assert((0x1F_FFFF_FFFF_FFFF * ar) * ax == 0x1F_FFFF_FFFF_FFFF * (ar * ax));
    }
    assert(yu <= 0x50_0000_0000_0000 * us) by (nonlinear_arith)
        requires
            ay <= 0x50_0000_0000_0000 * s,
            yu == ay * u,
            us == u * s,
            u > 0,
    ;
    assert(arx <= 6 * us);
    let rx = r * x;
    assert(2 * q == ju * x + rx) by (nonlinear_arith)
        requires
            q == m * x,
            r == 2 * m - ju,
            rx == r * x,
    ;
    let jux = ju * x;
    lemma_product_size(ju, x);
    assert(ju * ax <= 2 * yu) by (nonlinear_arith)
        requires
            ju <= 2 * (n * u),
            ay == ax * n,
            yu == ay * u,
            ax >= 0,
    {
        assert(ju * ax <= (2 * (n * u)) * ax);
        assert((2 * (n * u)) * ax == 2 * ((ax * n) * u));
    }
    assert(2 * distance(q) <= 2 * yu + 6 * us);
    let pu = p * u;
    lemma_product_size(p, u);
    let ap = distance(p);
    let spu = sp * u;
    assert(spu <= 7 * us && ap <= 0x70_0000_0000_0000 * s) by {
        if sp == 1 {
            assert(spu == u);
            assert(ap * u <= 0x60_0000_0000_0000 * us);
            assert(ap <= 0x60_0000_0000_0000 * s) by (nonlinear_arith)
                requires
                    ap * u <= 0x60_0000_0000_0000 * us,
                    us == u * s,
                    u > 0,
            ;
        } else {
            assert(0x10_0000_0000_0000 * spu <= ap * u) by (nonlinear_arith)
                requires
                    0x10_0000_0000_0000 * sp <= ap,
                    spu == sp * u,
                    u > 0,
            ;
            assert(ap * u <= 0x60_0000_0000_0000 * us);
            assert(ap <= 0x60_0000_0000_0000 * s) by (nonlinear_arith)
                requires
                    ap * u <= 0x60_0000_0000_0000 * us,
                    us == u * s,
                    u > 0,
            ;
        }
    }
    // The place.
    let h = g - (a + p);
    assert(-(5 * s) <= h <= 5 * s);
    // All together.
    let t = 2 * (n * p) - j * y;
    assert(t * u == n * (2 * pu - 2 * q) + n * rx) by (nonlinear_arith)
        requires
            t == 2 * (n * p) - j * y,
            y == x * n,
            pu == p * u,
            2 * q == ju * x + rx,
            ju == j * u,
    ;
    let v = 2 * pu - 2 * q + rx;
    assert(-(13 * us) <= v <= 13 * us);
    assert(n * (2 * pu - 2 * q) + n * rx == n * v) by (nonlinear_arith)
        requires
            v == 2 * pu - 2 * q + rx,
    ;
    let ns = n * s;
    assert(-(13 * ns) <= t <= 13 * ns) by (nonlinear_arith)
        requires
            t * u == n * v,
            -(13 * us) <= v <= 13 * us,
            us == u * s,
            ns == n * s,
            u > 0,
            n >= 1,
    {
        assert(n * v <= n * (13 * us) && n * v >= n * (-(13 * us)));
        assert(n * (13 * us) == (13 * ns) * u);
        assert(n * (-(13 * us)) == (-(13 * ns)) * u);
    }
    let nn = n * n;
    assert(-(5 * ns) <= n * h <= 5 * ns) by (nonlinear_arith)
        requires
            -(5 * s) <= h <= 5 * s,
            ns == n * s,
            n >= 1,
    ;
    assert(-(6 * ns + 2 * nn) <= j * f <= 6 * ns + 2 * nn) by (nonlinear_arith)
        requires
            -(3 * s + n) <= f <= 3 * s + n,
            0 <= j <= 2 * n,
            ns == n * s,
            nn == n * n,
            s >= 1,
            n >= 1,
    {
        let c = 3 * s + n;
        assert(-(j * c) <= j * f <= j * c);
        assert(j * c <= (2 * n) * c);
        assert((2 * n) * c == 6 * ns + 2 * nn);
    }
    assert(-(6 * ns) <= j * e <= 6 * ns) by (nonlinear_arith)
        requires
            -(3 * s) <= e <= 3 * s,
            0 <= j <= 2 * n,
            ns == n * s,
            s >= 1,
            n >= 1,
    {
        let c = 3 * s;
        assert(-(j * c) <= j * e <= j * c);
        assert(j * c <= (2 * n) * c);
        assert((2 * n) * c == 6 * ns);
    }
    let off = 2 * n * g - (2 * n * a + j * far);
    assert(off == 2 * (n * h) + t + j * f + j * e) by (nonlinear_arith)
        requires
            off == 2 * n * g - (2 * n * a + j * far),
            h == g - (a + p),
            t == 2 * (n * p) - j * y,
            f == y - d,
            e == d - far,
    ;
    assert(2 * n * (20 * s + n) == 40 * ns + 2 * nn) by (nonlinear_arith)
        requires
            ns == n * s,
            nn == n * n,
    ;
    assert(ns >= 1) by (nonlinear_arith)
        requires
            ns == n * s,
            n >= 1,
            s >= 1,
    ;
}

/// The width of a significand as a literal.
proof fn lemma_block_times(x: int)
    ensures
        BLOCK * x == 0x10_0000_0000_0000 * x,
        2 * BLOCK * x == 0x20_0000_0000_0000 * x,
{
    assert(BLOCK * x == 0x10_0000_0000_0000 * x && 2 * BLOCK * x == 0x20_0000_0000_0000 * x)
        by (nonlinear_arith)
        requires
            BLOCK == 0x10_0000_0000_0000,
    ;
}

/// A finite step comes from a finite distance.
proof fn lemma_step_is_finite(n: int, x_min: Binary64, x_max: Binary64)
    requires
        x_min.finite(),
        x_max.finite(),
        step_of(n, x_min, x_max).finite(),
        1 <= n <= i32::MAX,
    ensures
        difference_of(x_max, x_min).finite(),
{
    lemma_constants();
    law_whole_is_exact(n);
    law_difference_is_a_number(x_max, x_min);
    let d = difference_of(x_max, x_min);
    if !d.finite() {
        reveal(quotient_of);
        lemma_signed(d.negative() != whole(n).negative(), INFINITE as int);
    }
}

/// A place on the grid.
proof fn lemma_place(
    n: int,
    x_min: Binary64,
    x_max: Binary64,
    m: Binary64,
    j: int,
)
    requires
        x_min.finite(),
        x_max.finite(),
        step_of(n, x_min, x_max).finite(),
        1 <= n <= i32::MAX,
        0 <= j <= 2 * n,
        m.finite(),
        2 * BLOCK * distance(2 * m.value() - j * unity()) <= distance(2 * m.value()),
        sum_of(x_min, product_of(m, step_of(n, x_min, x_max))).finite(),
    ensures
        ({
            let g = sum_of(x_min, product_of(m, step_of(n, x_min, x_max))).value();
            let s = larger(spacing(x_min), spacing(x_max));
            distance(2 * n * g - (2 * n * x_min.value() + j * (x_max.value() - x_min.value())))
                <= 2 * n * (20 * s + n)
        }),
{
    lemma_constants();
    let u = unity();
    let dx = step_of(n, x_min, x_max);
    let (d, x, sx) = lemma_width(n, x_min, x_max);
    let p = product_of(m, dx);
    law_finite_product(m, dx);
    if !p.finite() {
        law_finite_terms(x_min, p);
    }
    law_product_error(m, dx);
    law_sum_error(x_min, p);
    lemma_spacing(x_min);
    lemma_spacing(x_max);
    lemma_spacing(p);
    let s = larger(spacing(x_min), spacing(x_max));
    let g = sum_of(x_min, p).value();
    lemma_block_times(spacing(x_min));
    lemma_block_times(spacing(x_max));
    lemma_block_times(sx);
    lemma_block_times(spacing(p));
    lemma_block_times(distance(2 * m.value() - j * u));
    lemma_block_times(distance(g - (x_min.value() + p.value())));
    lemma_place_roundings(
        u,
        s,
        n,
        j,
        x_min.value(),
        x_max.value(),
        d,
        x,
        sx,
        m.value(),
        p.value(),
        spacing(p),
        sum_of(x_min, p).value(),
    );
}

/// The edge with index `k` of a grid with `n` bins is `x_min + k * (x_max - x_min) / n`, up to 20
/// spacings of the numbers at the ends and `n` of the smallest positive numbers.
pub proof fn law_edges_lie_evenly_between_the_ends(
    n: int,
    x_min: Binary64,
    x_max: Binary64,
    k: int,
)
    requires
        x_min.finite(),
        x_max.finite(),
        step_of(n, x_min, x_max).finite(),
        1 <= n <= i32::MAX,
        0 <= k <= n,
        grid_at(x_min, step_of(n, x_min, x_max), k).finite(),
    ensures
        ({
            let edge = grid_at(x_min, step_of(n, x_min, x_max), k).value();
            let s = larger(spacing(x_min), spacing(x_max));
            distance(n * edge - (n * x_min.value() + k * (x_max.value() - x_min.value()))) <= n * (20
                * s + n)
        }),
{
    lemma_constants();
    let u = unity();
    law_whole_is_exact(k);
    assert((2 * k) * u == 2 * (k * u)) by (nonlinear_arith);
    assert(whole(k).value() == k * u);
    lemma_block_times(distance(2 * whole(k).value() - (2 * k) * u));
    lemma_place(n, x_min, x_max, whole(k), 2 * k);
    let g = grid_at(x_min, step_of(n, x_min, x_max), k).value();
    let a = x_min.value();
    let d = x_max.value() - a;
    let s = larger(spacing(x_min), spacing(x_max));
    assert(2 * n * g - (2 * n * a + (2 * k) * d) == 2 * (n * g - (n * a + k * d)))
        by (nonlinear_arith);
    assert(2 * n * (20 * s + n) == 2 * (n * (20 * s + n))) by (nonlinear_arith);
}

/// A grid ends at its upper end, up to 20 spacings of the numbers at the ends and `n` of the smallest
/// positive numbers.
pub proof fn law_grid_ends_at_its_upper_end(n: int, x_min: Binary64, x_max: Binary64)
    requires
        x_min.finite(),
        x_max.finite(),
        step_of(n, x_min, x_max).finite(),
        1 <= n <= i32::MAX,
        grid_at(x_min, step_of(n, x_min, x_max), n).finite(),
    ensures
        distance(grid_at(x_min, step_of(n, x_min, x_max), n).value() - x_max.value()) <= 20
            * larger(spacing(x_min), spacing(x_max)) + n,
{
    law_edges_lie_evenly_between_the_ends(n, x_min, x_max, n);
    let g = grid_at(x_min, step_of(n, x_min, x_max), n).value();
    let a = x_min.value();
    let b = x_max.value();
    let c = 20 * larger(spacing(x_min), spacing(x_max)) + n;
    let t = g - b;
    assert(n * g - (n * a + n * (b - a)) == n * t) by (nonlinear_arith)
        requires
            t == g - b,
    ;
    lemma_product_size(n, t);
    assert(distance(t) <= c) by (nonlinear_arith)
        requires
            n * distance(t) <= n * c,
            n >= 1,
    ;
}

/// Half a bin on top of `i` bins, up to rounding.
proof fn lemma_half_more(i: int)
    requires
        0 <= i < i32::MAX,
    ensures
        sum_of(whole(i), of(HALF)).finite(),
        2 * BLOCK * distance(2 * sum_of(whole(i), of(HALF)).value() - (2 * i + 1) * unity())
            <= distance(2 * sum_of(whole(i), of(HALF)).value()),
        whole(i).le(sum_of(whole(i), of(HALF))),
        sum_of(whole(i), of(HALF)).le(whole(i + 1)),
{
    lemma_constants();
    let u = unity();
    let m = sum_of(whole(i), of(HALF));
    law_whole_is_exact(i);
    law_whole_is_exact(i + 1);
    assert((i + 1) * u == i * u + u) by (nonlinear_arith);
    law_sum_respects_bounds(whole(i), of(HALF), whole(i));
    law_sum_respects_bounds(whole(i), of(HALF), whole(i + 1));
    law_finite_between(whole(i), m, whole(i + 1));
    law_sum_error(whole(i), of(HALF));
    assert((2 * i + 1) * u == 2 * (i * u) + u) by (nonlinear_arith);
    let e = distance(m.value() - (whole(i).value() + of(HALF).value()));
    lemma_block_times(e);
    lemma_block_times(distance(2 * m.value() - (2 * i + 1) * u));
}

/// The point at which a kernel density is evaluated for bin `i` of `n` is
/// `x_min + (i + 1/2) * (x_max - x_min) / n`, up to 20 spacings of the numbers at the ends and `n` of
/// the smallest positive numbers.
pub proof fn law_points_lie_in_the_middle_of_their_bins(
    n: int,
    x_min: Binary64,
    x_max: Binary64,
    i: int,
)
    requires
        x_min.finite(),
        x_max.finite(),
        step_of(n, x_min, x_max).finite(),
        1 <= n <= i32::MAX,
        0 <= i < n,
        center_at(x_min, step_of(n, x_min, x_max), i).finite(),
    ensures
        ({
            let point = center_at(x_min, step_of(n, x_min, x_max), i).value();
            let s = larger(spacing(x_min), spacing(x_max));
            distance(
                2 * n * point - (2 * n * x_min.value() + (2 * i + 1) * (x_max.value()
                    - x_min.value())),
            ) <= 2 * n * (20 * s + n)
        }),
{
    lemma_half_more(i);
    lemma_place(n, x_min, x_max, sum_of(whole(i), of(HALF)), 2 * i + 1);
}

/// The point at which a kernel density is evaluated for bin `i` lies between the edges of the bin,
/// and not before the lower end.
pub proof fn law_points_lie_between_the_edges_of_their_bins(
    n: int,
    x_min: Binary64,
    x_max: Binary64,
    i: int,
)
    requires
        x_min.finite(),
        x_max.finite(),
        x_min.le(x_max),
        step_of(n, x_min, x_max).finite(),
        1 <= n <= i32::MAX,
        0 <= i < n,
    ensures
        ({
            let dx = step_of(n, x_min, x_max);
            let point = center_at(x_min, dx, i);
            &&& grid_at(x_min, dx, i).le(point)
            &&& point.le(grid_at(x_min, dx, i + 1))
            &&& x_min.le(point)
        }),
{
    lemma_constants();
    let dx = step_of(n, x_min, x_max);
    let m = sum_of(whole(i), of(HALF));
    lemma_half_more(i);
    law_whole_is_exact(i);
    law_whole_is_exact(i + 1);
    law_whole_is_exact(n);
    law_whole_one();
    law_whole_keeps_order(1, n);
    law_difference_is_a_number(x_max, x_min);
    law_difference_of_ordered(x_max, x_min);
    law_quotient_of_nonnegative(difference_of(x_max, x_min), whole(n));
    law_finite_product(whole(i), dx);
    law_finite_product(m, dx);
    law_finite_product(whole(i + 1), dx);
    law_product_keeps_order(whole(i), m, dx);
    law_product_keeps_order(m, whole(i + 1), dx);
    let low = product_of(whole(i), dx);
    let mid = product_of(m, dx);
    let high = product_of(whole(i + 1), dx);
    law_finite_sum(x_min, low);
    law_finite_sum(x_min, mid);
    law_finite_sum(x_min, high);
    law_sum_keeps_order(x_min, low, x_min, mid);
    law_sum_keeps_order(x_min, mid, x_min, high);
    law_product_of_nonnegative(m, dx);
    law_zero_is_neutral(x_min, of(0));
    law_finite_sum(x_min, of(0));
    law_sum_keeps_order(x_min, of(0), x_min, mid);
}

/// The width of one of `n` bins is `(x_max - x_min) / n`, up to 6 spacings of the numbers at the ends
/// and `n` of the smallest positive numbers, shared by the bins.
pub proof fn law_bins_have_equal_widths(n: int, x_min: Binary64, x_max: Binary64)
    requires
        x_min.finite(),
        x_max.finite(),
        step_of(n, x_min, x_max).finite(),
        1 <= n <= i32::MAX,
    ensures
        distance(n * step_of(n, x_min, x_max).value() - (x_max.value() - x_min.value())) <= 6
            * larger(spacing(x_min), spacing(x_max)) + n,
{
    lemma_constants();
    let (d, x, sx) = lemma_width(n, x_min, x_max);
    let s = larger(spacing(x_min), spacing(x_max));
    lemma_spacing(x_min);
    lemma_spacing(x_max);
    lemma_block_times(spacing(x_min));
    lemma_block_times(spacing(x_max));
    lemma_block_times(sx);
    let far = x_max.value() - x_min.value();
    assert(distance(x_min.value()) < 0x20_0000_0000_0000 * spacing(x_min));
    assert(spacing(x_min) <= s);
    assert(distance(x_max.value()) < 0x20_0000_0000_0000 * spacing(x_max));
    assert(spacing(x_max) <= s);
    let e = d - far;
    assert(-(3 * s) <= e <= 3 * s);
    let y = x * n;
    let z = sx * n;
    if sx == 1 {
        assert(z == n);
    } else {
        lemma_product_size(x, n);
        assert(0x10_0000_0000_0000 * z <= distance(y)) by (nonlinear_arith)
            requires
                0x10_0000_0000_0000 * sx <= distance(x),
                z == sx * n,
                distance(y) == distance(x) * n,
                n >= 1,
        ;
    }
    assert(n * x == x * n) by (nonlinear_arith);
}

/// The distance of the ends, the width of a bin and the spacing there: what rounding did to each.
proof fn lemma_width(n: int, x_min: Binary64, x_max: Binary64) -> (res: (int, int, int))
    requires
        x_min.finite(),
        x_max.finite(),
        step_of(n, x_min, x_max).finite(),
        1 <= n <= i32::MAX,
    ensures
        ({
            let (d, x, sx) = res;
            &&& d == difference_of(x_max, x_min).value()
            &&& x == step_of(n, x_min, x_max).value()
            &&& 0x20_0000_0000_0000 * distance(d - (x_max.value() - x_min.value())) <= distance(d)
            &&& 2 * distance(x * n - d) <= sx * n
            &&& sx >= 1
            &&& sx == 1 || BLOCK * sx <= distance(x)
        }),
{
    lemma_constants();
    let u = unity();
    let dx = step_of(n, x_min, x_max);
    let d = difference_of(x_max, x_min);
    lemma_step_is_finite(n, x_min, x_max);
    law_whole_is_exact(n);
    lemma_opposite(x_min);
    law_sum_error(x_max, opposite(x_min));
    let nu = n * u;
    assert(nu > 0) by (nonlinear_arith)
        requires
            nu == n * u,
            n >= 1,
            u > 0,
    ;
    law_quotient_error(d, whole(n));
    let x = dx.value();
    let sx = spacing(dx);
    let t = x * n - d.value();
    assert(x * nu - d.value() * u == t * u) by (nonlinear_arith)
        requires
            nu == n * u,
            t == x * n - d.value(),
    ;
    lemma_product_size(t, u);
    assert(2 * distance(t) <= sx * n) by (nonlinear_arith)
        requires
            2 * (distance(t) * u) <= sx * nu,
            nu == n * u,
            u > 0,
    ;
    lemma_spacing(dx);
    lemma_block_times(distance(d.value() - (x_max.value() + opposite(x_min).value())));
    (d.value(), x, sx)
}

/// Both ends lie far enough below the largest number for their difference not to overflow.
pub open spec fn moderate(x_min: Binary64, x_max: Binary64) -> bool {
    &&& x_min.finite()
    &&& x_max.finite()
    &&& 64 * distance(x_min.value()) <= ceiling()
    &&& 64 * distance(x_max.value()) <= ceiling()
}

/// A place between moderate ends.
proof fn lemma_place_is_finite(n: int, x_min: Binary64, x_max: Binary64, m: Binary64)
    requires
        moderate(x_min, x_max),
        1 <= n <= i32::MAX,
        m.finite(),
        0 <= m.value() <= n * unity(),
    ensures
        step_of(n, x_min, x_max).finite(),
        sum_of(x_min, product_of(m, step_of(n, x_min, x_max))).finite(),
{
    lemma_constants();
    lemma_ceiling();
    lemma_two_to_values();
    lemma_two_to_increases(52, 2098);
    let c = ceiling();
    assert(c >= 0x10_0000_0000_0000);
    let u = unity();
    let a = x_min.value();
    let b = x_max.value();
    let most = larger(distance(a), distance(b));
    lemma_opposite(x_min);
    law_sum_overflows_when_huge(x_max, opposite(x_min));
    law_whole_is_exact(n);
    law_whole_one();
    law_whole_keeps_order(1, n);
    let d = difference_of(x_max, x_min);
    law_quotient_by_one_or_more_is_finite(d, whole(n));
    let dx = step_of(n, x_min, x_max);
    let (dv, x, sx) = lemma_width(n, x_min, x_max);
    lemma_block_times(sx);
    let ad = distance(dv);
    assert(ad <= 3 * most);
    let ax = distance(x);
    lemma_product_size(x, n);
    let y = ax * n;
    let z = sx * n;
    assert(y <= 7 * most + 2 * n) by {
        if sx == 1 {
            assert(z == n);
        } else {
            assert(0x10_0000_0000_0000 * z <= y) by (nonlinear_arith)
                requires
                    0x10_0000_0000_0000 * sx <= ax,
                    z == sx * n,
                    y == ax * n,
                    n >= 1,
            ;
        }
    }
    // The distance from the lower end.
    let mv = m.value();
    lemma_product_size(mv, x);
    let t = mv * ax;
    let top = 7 * most + 2 * n;
    assert(t <= top * u) by (nonlinear_arith)
        requires
            t == mv * ax,
            0 <= mv <= n * u,
            ax >= 0,
            y == ax * n,
            y <= top,
            u > 0,
    {
        assert(mv * ax <= (n * u) * ax);
        assert((n * u) * ax == (ax * n) * u);
        assert((ax * n) * u <= top * u);
    }
    assert(2 * top < c);
    assert(2 * t < c * u) by (nonlinear_arith)
        requires
            t <= top * u,
            2 * top < c,
            u > 0,
    ;
    law_product_overflows_when_huge(m, dx);
    let p = product_of(m, dx);
    law_product_error(m, dx);
    lemma_spacing(p);
    let sp = spacing(p);
    lemma_block_times(sp);
    let ap = distance(p.value());
    lemma_product_size(p.value(), u);
    assert(ap <= 2 * top + 2) by {
        let e = sp * u;
        assert(2 * (ap * u) <= 2 * t + e);
        if sp == 1 {
            assert(e == u);
            assert(ap <= 2 * top + 2) by (nonlinear_arith)
                requires
                    2 * (ap * u) <= 2 * t + u,
                    t <= top * u,
                    u > 0,
                    top >= 0,
            ;
        } else {
            assert(0x10_0000_0000_0000 * e <= ap * u) by (nonlinear_arith)
                requires
                    0x10_0000_0000_0000 * sp <= ap,
                    e == sp * u,
                    u > 0,
            ;
            assert(ap * u <= 2 * t);
            assert(ap <= 2 * top + 2) by (nonlinear_arith)
                requires
                    ap * u <= 2 * t,
                    t <= top * u,
                    u > 0,
                    top >= 0,
            ;
        }
    }
    law_sum_overflows_when_huge(x_min, p);
}

/// No edge and no point of a grid between moderate ends overflows.
pub proof fn law_grid_between_moderate_ends_is_finite(
    n: int,
    x_min: Binary64,
    x_max: Binary64,
    k: int,
)
    requires
        moderate(x_min, x_max),
        1 <= n <= i32::MAX,
        0 <= k <= n,
    ensures
        step_of(n, x_min, x_max).finite(),
        grid_at(x_min, step_of(n, x_min, x_max), k).finite(),
        k < n ==> center_at(x_min, step_of(n, x_min, x_max), k).finite(),
{
    lemma_constants();
    let u = unity();
    law_whole_is_exact(k);
    assert(0 <= k * u <= n * u) by (nonlinear_arith)
        requires
            0 <= k <= n,
            u > 0,
    ;
    lemma_place_is_finite(n, x_min, x_max, whole(k));
    if k < n {
        lemma_half_more(k);
        law_whole_is_exact(k + 1);
        assert((k + 1) * u <= n * u) by (nonlinear_arith)
            requires
                k + 1 <= n,
                u > 0,
        ;
        lemma_place_is_finite(n, x_min, x_max, sum_of(whole(k), of(HALF)));
    }
}

/// Between any ends, infinite ones among them, an edge is as many widths past the lower end as there
/// are bins before it, and the point of a bin half a width more, the width being the difference of the
/// ends over the number of bins.
pub proof fn law_grid_between_any_ends(n: int, x_min: Binary64, x_max: Binary64, k: int)
    ensures
        ({
            let width = quotient_of(difference_of(x_max, x_min), whole(n));
            &&& step_of(n, x_min, x_max) == width
            &&& grid_at(x_min, width, k) == sum_of(x_min, product_of(whole(k), width))
            &&& center_at(x_min, width, k) == sum_of(
                x_min,
                product_of(sum_of(whole(k), of(HALF)), width),
            )
        }),
{
}

} // verus!
