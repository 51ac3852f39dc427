//! From a quantile to its value and back: inside a digest the share at the value is the
//! quantile, up to rounding.

use vstd::prelude::*;

use crate::binary64::arithmetic::{
    difference_of, distance, product_of, quotient_of, sum_of, unity, whole,
};
use crate::binary64::errors::{
    law_half_sum_error, law_product_error, law_product_with_a_fraction, law_quotient_error,
    law_sum_error, lemma_rounding_unit, lemma_spacing, lemma_spacing_order, rounding_unit, spacing,
};
use crate::binary64::laws::{
    law_difference_is_a_number, law_difference_of_ordered, law_finite_between, law_finite_sum,
    law_finite_terms, law_infinities_are_outermost, law_product_commutes,
    law_product_of_nonnegative, law_product_sign, law_quotient_of_nonnegative,
    law_quotient_respects_bound, law_share_is_between_zero_and_one,
    law_sum_goes_no_farther_than_twice, law_sum_keeps_order, law_sum_of_nonnegative,
    law_sum_respects_bounds, law_whole_is_exact, law_zero_is_neutral, law_zero_product,
    lemma_constants,
};
use crate::binary64::number::{lemma_opposite, lemma_value_sign, of, opposite, HALF, ONE, TWO};
use crate::binary64::rank::BLOCK;
use crate::binary64::Binary64;
use crate::cells::{
    clamped, law_cell_holds_its_mean, lemma_middle, lower_edge, lower_mean, middle_of, ordered,
    upper_edge, upper_mean,
};
use crate::digest::Centroid;
use crate::distribution::{cumulative_between, cumulative_of, lemma_reach_bounds, part_of, reach};
use crate::laws::adding_up::lemma_share_error;
use crate::laws::quantiles::{increasing, law_interpolation_stays_in_the_cell, lemma_target};
use crate::laws::shares::lemma_distances;
use crate::quantile::{crossing, interpolated, lemma_crossing, quantile_of};
use crate::weights::{law_running_total_grows, lemma_total_step, total_of, weighty};

verus! {

/// What the roundings on the way from a target to the offset of its value add up to. `d` is the
/// rounded distance of the target from the weight before the centroid, `f` the rounded fraction
/// of the weight, `a` its rounded distance from a half, `o` the rounded offset.
proof fn lemma_offset_error(
    u: int,
    e: int,
    spread: int,
    g: int,
    w: int,
    target: int,
    d: int,
    f: int,
    a: int,
    o: int,
    so: int,
)
    requires
        e >= 1,
        u > 0,
        u == 2 * BLOCK * e,
        g > 0,
        spread >= 1,
        0 < w < 2 * BLOCK * spread,
        0 <= d < 2 * BLOCK * spread,
        2 * BLOCK * distance(d - target) <= d,
        distance(f * w - d * u) <= 4 * (e * w),
        2 * distance(2 * a - (2 * f - u)) <= 8 * e,
        -u <= a <= 2 * u,
        2 * distance(o * u - a * g) <= so * u,
        so == 1 || BLOCK * so <= distance(o),
    ensures
        distance(2 * (w * o) - g * (2 * target - w)) <= 24 * (g * spread) + 2 * w,
{
    // The distance of the target.
    let x1 = d - target;
    assert(-spread <= x1 <= spread) by (nonlinear_arith)
        requires
            2 * BLOCK * distance(x1) <= d,
            d < 2 * BLOCK * spread,
            -distance(x1) <= x1 <= distance(x1),
            BLOCK == 0x10_0000_0000_0000,
    ;
    // The fraction, in units of the weight.
    assert(e * w <= u * spread) by (nonlinear_arith)
        requires
            w < 2 * BLOCK * spread,
            u == 2 * BLOCK * e,
            e >= 1,
    ;
    let x2 = f * w - d * u;
    let ew = e * w;
    assert(-(4 * ew) <= x2 <= 4 * ew);
    // The distance from a half.
    let x3 = 2 * a - (2 * f - u);
    assert(-4 * e <= x3 <= 4 * e);
    assert(-(4 * ew) <= x3 * w <= 4 * ew) by (nonlinear_arith)
        requires
            -4 * e <= x3 <= 4 * e,
            w > 0,
            ew == e * w,
    ;
    // The offset.
    let x4 = o * u - a * g;
    assert(distance(o) * u <= 4 * (u * g) + u) by {
        lemma_offset_size(u, e, g, a, o, so);
    }
    assert(-(4 * (g * spread) * u + w * u) <= w * x4 <= 4 * (g * spread) * u + w * u) by {
        lemma_offset_rounding(u, e, spread, g, w, a, o, so);
    }
    // All together, scaled by the unit.
    let wo = w * o;
    assert(wo * u == w * x4 + (w * a) * g) by (nonlinear_arith)
        requires
            wo == w * o,
            x4 == o * u - a * g,
    ;
    assert(2 * (w * a) == 2 * x2 + 2 * (d * u) - u * w + x3 * w) by (nonlinear_arith)
        requires
            x2 == f * w - d * u,
            x3 == 2 * a - (2 * f - u),
    ;
    assert(d * u == target * u + x1 * u) by (nonlinear_arith)
        requires
            x1 == d - target,
    ;
    let y = 2 * x2 + 2 * (x1 * u) + x3 * w;
    assert(-(spread * u) <= x1 * u <= spread * u) by (nonlinear_arith)
        requires
            -spread <= x1 <= spread,
            u > 0,
    ;
    assert(u * spread == spread * u) by (nonlinear_arith);
    let su = spread * u;
    assert(-(14 * su) <= y <= 14 * su);
    let wa = w * a;
    assert(2 * wa == (2 * target - w) * u + y) by (nonlinear_arith)
        requires
            2 * wa == 2 * (target * u) - u * w + y,
    ;
    let z = 2 * wo - g * (2 * target - w);
    assert(z * u == 2 * (w * x4) + y * g) by (nonlinear_arith)
        requires
            z == 2 * wo - g * (2 * target - w),
            wo * u == w * x4 + wa * g,
            2 * wa == (2 * target - w) * u + y,
    ;
    assert(-14 * ((g * spread) * u) <= y * g <= 14 * ((g * spread) * u)) by (nonlinear_arith)
        requires
            -(14 * su) <= y <= 14 * su,
            su == spread * u,
            g > 0,
    ;
    let k = 22 * (g * spread) + 2 * w;
    let gs = g * spread;
    assert(k * u == 22 * (gs * u) + 2 * (w * u)) by (nonlinear_arith)
        requires
            k == 22 * gs + 2 * w,
    ;
    assert(4 * gs * u == 4 * (gs * u)) by (nonlinear_arith);
    assert(-(k * u) <= z * u <= k * u);
    assert(-k <= z <= k) by (nonlinear_arith)
        requires
            -(k * u) <= z * u <= k * u,
            u > 0,
    ;
    assert(gs >= 0) by (nonlinear_arith)
        requires
            gs == g * spread,
            g > 0,
            spread >= 1,
    ;
}

/// The size of a rounded offset.
proof fn lemma_offset_size(u: int, e: int, g: int, a: int, o: int, so: int)
    requires
        e >= 1,
        u > 0,
        u == 2 * BLOCK * e,
        g > 0,
        -(2 * u) <= a <= 2 * u,
        2 * distance(o * u - a * g) <= so * u,
        so == 1 || BLOCK * so <= distance(o),
    ensures
        distance(o) * u <= 4 * (u * g) + u,
{
    let p = distance(o);
    assert(p * u == distance(o * u)) by (nonlinear_arith)
        requires
            p == o && o >= 0 || p == -o && o < 0,
            u > 0,
            distance(o * u) == o * u && o * u >= 0 || distance(o * u) == -(o * u) && o * u < 0,
    ;
    assert(-(2 * (u * g)) <= a * g <= 2 * (u * g)) by (nonlinear_arith)
        requires
            -(2 * u) <= a <= 2 * u,
            g > 0,
    ;
    if so == 1 {
        assert(so * u == u);
        assert(u * g >= 0) by (nonlinear_arith)
            requires
                u > 0,
                g > 0,
        ;
    } else {
        assert(4 * (so * u) <= p * u) by (nonlinear_arith)
            requires
                BLOCK * so <= p,
                BLOCK == 0x10_0000_0000_0000,
                u > 0,
                so >= 0 || so < 0,
                p >= 0,
        ;
        assert(u * g >= 0) by (nonlinear_arith)
            requires
                u > 0,
                g > 0,
        ;
    }
}

/// The rounding of an offset, in units of the weight.
proof fn lemma_offset_rounding(
    u: int,
    e: int,
    spread: int,
    g: int,
    w: int,
    a: int,
    o: int,
    so: int,
)
    requires
        e >= 1,
        u > 0,
        u == 2 * BLOCK * e,
        g > 0,
        spread >= 1,
        0 < w < 2 * BLOCK * spread,
        -u <= a <= 2 * u,
        2 * distance(o * u - a * g) <= so * u,
        so == 1 || BLOCK * so <= distance(o),
    ensures
        -(4 * (g * spread) * u + w * u) <= w * (o * u - a * g) <= 4 * (g * spread) * u + w * u,
{
    lemma_offset_size(u, e, g, a, o, so);
    let x = o * u - a * g;
    let p = distance(o);
    let wu = w * u;
    let gs = g * spread;
    assert(gs * u >= 0 && wu >= 0) by (nonlinear_arith)
        requires
            gs == g * spread,
            wu == w * u,
            g > 0,
            spread >= 1,
            w > 0,
            u > 0,
    ;
    assert(4 * gs * u == 4 * (gs * u)) by (nonlinear_arith);
    if so == 1 {
        assert(-wu <= w * x <= wu) by (nonlinear_arith)
            requires
                -u <= 2 * x <= u,
                wu == w * u,
                w > 0,
                u > 0,
        ;
    } else {
        // A relative error, of a size that the weight brings below the spacing of the totals.
        assert(2 * BLOCK * distance(x) <= 4 * (u * g) + u) by (nonlinear_arith)
            requires
                2 * distance(x) <= so * u,
                BLOCK * so <= p,
                p * u <= 4 * (u * g) + u,
                u > 0,
                BLOCK > 0,
        ;
        let t = distance(x);
        assert(2 * BLOCK * (w * t) <= 4 * (wu * g) + wu) by (nonlinear_arith)
            requires
                2 * BLOCK * t <= 4 * (u * g) + u,
                wu == w * u,
                w > 0,
        ;
        assert(wu * g <= 2 * BLOCK * (gs * u)) by (nonlinear_arith)
            requires
                wu == w * u,
                gs == g * spread,
                w < 2 * BLOCK * spread,
                u > 0,
                g > 0,
        ;
        assert(w * t <= 4 * (gs * u) + wu) by (nonlinear_arith)
            requires
                2 * BLOCK * (w * t) <= 4 * (wu * g) + wu,
                wu * g <= 2 * BLOCK * (gs * u),
                wu >= 0,
                BLOCK == 0x10_0000_0000_0000,
        ;
        assert(-(w * t) <= w * x <= w * t) by (nonlinear_arith)
            requires
                -t <= x <= t,
                w > 0,
        ;
    }
}

/// What the roundings on the way from a value to the weight up to it add up to. `h` is the
/// distance of the value from the mean, `y` the same rounded, `p` the rounded share of the gap,
/// `fr` the rounded fraction of the weight, `z` the rounded part of the weight.
proof fn lemma_part_error(
    u: int,
    e: int,
    spread: int,
    g: int,
    w: int,
    h: int,
    y: int,
    p: int,
    fr: int,
    z: int,
    sz: int,
)
    requires
        e >= 1,
        u > 0,
        u == 2 * BLOCK * e,
        g > 0,
        spread >= 1,
        0 < w < 2 * BLOCK * spread,
        2 * BLOCK * distance(y - h) <= g,
        distance(p * g - y * u) <= e * g,
        distance(2 * fr - (u + 2 * p)) <= 4 * e,
        -(2 * u) <= fr <= 2 * u,
        2 * distance(z * u - w * fr) <= sz * u,
        sz == 1 || BLOCK * sz <= distance(z),
    ensures
        distance(2 * (g * z) - g * w - 2 * (w * h)) <= 18 * (g * spread),
{
    let gs = g * spread;
    let gsu = gs * u;
    let ew = e * w;
    assert(ew <= u * spread) by (nonlinear_arith)
        requires
            w < 2 * BLOCK * spread,
            u == 2 * BLOCK * e,
            e >= 1,
            ew == e * w,
    ;
    assert(g * ew <= gsu) by (nonlinear_arith)
        requires
            ew <= u * spread,
            g > 0,
            gsu == (g * spread) * u,
    ;
    // The part of the weight.
    let x1 = z * u - w * fr;
    assert(w * fr == fr * w) by (nonlinear_arith);
    lemma_offset_size(u, e, w, fr, z, sz);
    let us = u * spread;
    assert(us >= u) by (nonlinear_arith)
        requires
            us == u * spread,
            spread >= 1,
            u > 0,
    ;
    assert(-(5 * us) <= x1 <= 5 * us) by {
        if sz != 1 {
            let t = distance(x1);
            let q = distance(z);
            assert(2 * BLOCK * t <= 4 * (u * w) + u) by (nonlinear_arith)
                requires
                    2 * t <= sz * u,
                    BLOCK * sz <= q,
                    q * u <= 4 * (u * w) + u,
                    u > 0,
                    BLOCK > 0,
            ;
            assert(t <= 5 * us) by (nonlinear_arith)
                requires
                    2 * BLOCK * t <= 4 * (u * w) + u,
                    w < 2 * BLOCK * spread,
                    us == u * spread,
                    us >= u,
                    u > 0,
                    BLOCK == 0x10_0000_0000_0000,
            ;
        }
    }
    assert(-(5 * gsu) <= g * x1 <= 5 * gsu) by (nonlinear_arith)
        requires
            -(5 * us) <= x1 <= 5 * us,
            us == u * spread,
            gsu == (g * spread) * u,
            g > 0,
    ;
    // The fraction.
    let x2 = 2 * fr - (u + 2 * p);
    let gw = g * w;
    assert(-(4 * gsu) <= gw * x2 <= 4 * gsu) by (nonlinear_arith)
        requires
            -(4 * e) <= x2 <= 4 * e,
            gw == g * w,
            g * ew <= gsu,
            ew == e * w,
            g > 0,
            w > 0,
    ;
    // The share of the gap.
    let x3 = p * g - y * u;
    assert(-gsu <= w * x3 <= gsu) by (nonlinear_arith)
        requires
            -(e * g) <= x3 <= e * g,
            g * ew <= gsu,
            ew == e * w,
            w > 0,
    ;
    // The distance from the mean.
    let x4 = y - h;
    let t4 = distance(x4);
    assert(w * t4 <= gs) by (nonlinear_arith)
        requires
            2 * BLOCK * t4 <= g,
            0 < w < 2 * BLOCK * spread,
            gs == g * spread,
            t4 >= 0,
            spread >= 1,
            BLOCK > 0,
    ;
    assert(-gs <= w * x4 <= gs) by (nonlinear_arith)
        requires
            -t4 <= x4 <= t4,
            w * t4 <= gs,
            w > 0,
    ;
    assert(-gsu <= (w * x4) * u <= gsu) by (nonlinear_arith)
        requires
            -gs <= w * x4 <= gs,
            gsu == gs * u,
            u > 0,
    ;
    // All together, scaled by the unit.
    let r = 2 * (g * z) - gw - 2 * (w * h);
    let gz = g * z;
    let wh = w * h;
    let wy = w * y;
    assert(gz * u == g * x1 + gw * fr) by (nonlinear_arith)
        requires
            gz == g * z,
            gw == g * w,
            x1 == z * u - w * fr,
    ;
    assert(2 * (gw * fr) == gw * x2 + gw * u + 2 * (gw * p)) by (nonlinear_arith)
        requires
            x2 == 2 * fr - (u + 2 * p),
    ;
    assert(gw * p == w * x3 + wy * u) by (nonlinear_arith)
        requires
            gw == g * w,
            wy == w * y,
            x3 == p * g - y * u,
    ;
    assert(wy * u == (w * x4) * u + wh * u) by (nonlinear_arith)
        requires
            wy == w * y,
            wh == w * h,
            x4 == y - h,
    ;
    assert(r * u == 2 * (gz * u) - gw * u - 2 * (wh * u)) by (nonlinear_arith)
        requires
            r == 2 * gz - gw - 2 * wh,
    ;
    assert(-(18 * gsu) <= r * u <= 18 * gsu);
    assert(-(18 * gs) <= r <= 18 * gs) by (nonlinear_arith)
        requires
            -(18 * gsu) <= r * u <= 18 * gsu,
            gsu == gs * u,
            u > 0,
    ;
}

/// The number in the middle of two means, against their exact middle.
pub(crate) proof fn lemma_edge_error(low: Binary64, high: Binary64, s: int)
    requires
        low.lt(high),
        low.finite(),
        high.finite(),
        spacing(low) <= s,
        spacing(high) <= s,
    ensures
        distance(2 * middle_of(low, high).value() - (low.value() + high.value())) <= 4 * s,
        middle_of(low, high).finite(),
{
    law_half_sum_error(low, high, s);
}

/// The gap between two means, against the exact one.
pub(crate) proof fn lemma_gap_error(low: Binary64, high: Binary64, s: int)
    requires
        low.lt(high),
        low.finite(),
        high.finite(),
        difference_of(high, low).finite(),
        spacing(low) <= s,
        spacing(high) <= s,
    ensures
        difference_of(high, low).value() > 0,
        distance(difference_of(high, low).value() - (high.value() - low.value())) <= 3 * s,
{
    lemma_constants();
    lemma_opposite(low);
    law_difference_of_ordered(high, low);
    law_sum_error(high, opposite(low));
    lemma_spacing(low);
    lemma_spacing(high);
    let g = difference_of(high, low).value();
    let x = distance(g - (high.value() + opposite(low).value()));
    let sl = spacing(low);
    let sh = spacing(high);
    assert(2 * BLOCK * sl <= 2 * BLOCK * s && 2 * BLOCK * sh <= 2 * BLOCK * s) by (nonlinear_arith)
        requires
            sl <= s,
            sh <= s,
            BLOCK > 0,
    ;
    assert(x <= 3 * s) by (nonlinear_arith)
        requires
            2 * BLOCK * x <= g,
            g <= 4 * (BLOCK * s) + x,
            BLOCK == 0x10_0000_0000_0000,
            s >= 1,
    ;
}

/// The roundings on the way from a target to the offset of its value.
pub(crate) proof fn lemma_target_error(before: Binary64, w: Binary64, target: Binary64, gap: Binary64)
    requires
        before.nonnegative(),
        w.nonnegative(),
        sum_of(before, w).finite(),
        before.lt(target),
        target.le(sum_of(before, w)),
        gap.finite(),
        gap.value() > 0,
    ensures
        ({
            let d = difference_of(target, before);
            let a = difference_of(quotient_of(d, w), of(HALF));
            let o = product_of(a, gap);
            let spread = spacing(sum_of(before, w));
            let t = target.value() - before.value();
            &&& w.finite()
            &&& w.value() > 0
            &&& w.value() < 2 * BLOCK * spread
            &&& a.finite()
            &&& -unity() <= a.value() <= 2 * unity()
            &&& o.finite() ==> distance(
                2 * (w.value() * o.value()) - gap.value() * (2 * t - w.value()),
            ) <= 24 * (gap.value() * spread) + 2 * w.value()
            &&& a.value() > unity() ==> t >= w.value() - spread
        }),
{
    lemma_constants();
    lemma_rounding_unit();
    let reached = sum_of(before, w);
    let spread = spacing(reached);
    let u = unity();
    let e = rounding_unit();
    let d = difference_of(target, before);
    lemma_opposite(before);
    law_sum_of_nonnegative(before, w);
    law_sum_goes_no_farther_than_twice(before, w);
    law_finite_between(of(0), before, reached);
    law_finite_between(of(0), w, reached);
    law_finite_between(of(0), target, reached);
    lemma_spacing(reached);
    let tv = target.value() - before.value();
    let wv = w.value();
    assert(0 < tv <= 2 * wv);
    // The distance of the target.
    law_difference_is_a_number(target, before);
    law_difference_of_ordered(target, before);
    law_sum_respects_bounds(target, opposite(before), target);
    law_finite_between(of(0), d, target);
    law_sum_error(target, opposite(before));
    let dv = d.value();
    assert(dv <= 2 * tv) by (nonlinear_arith)
        requires
            2 * BLOCK * distance(dv - tv) <= dv,
            -distance(dv - tv) <= dv - tv <= distance(dv - tv),
            BLOCK == 0x10_0000_0000_0000,
            tv > 0,
    ;
    // The fraction of the weight.
    law_whole_is_exact(4);
    assert(dv * u <= (4 * u) * wv) by (nonlinear_arith)
        requires
            dv <= 4 * wv,
            u > 0,
    ;
    law_quotient_of_nonnegative(d, w);
    law_quotient_respects_bound(d, w, whole(4));
    let f = quotient_of(d, w);
    law_finite_between(of(0), f, whole(4));
    law_quotient_error(d, w);
    lemma_spacing_order(f, whole(4));
    lemma_spacing(whole(4));
    let sf = spacing(f);
    let s4 = spacing(whole(4));
    assert(s4 <= 8 * e) by (nonlinear_arith)
        requires
            s4 == 1 || BLOCK * s4 <= 4 * u,
            u == 2 * BLOCK * e,
            BLOCK > 0,
            e >= 1,
    ;
    let fv = f.value();
    let ew = e * wv;
    assert(sf * wv <= 8 * ew) by (nonlinear_arith)
        requires
            sf <= 8 * e,
            wv > 0,
            ew == e * wv,
    ;
    assert(distance(fv * wv - dv * u) <= 4 * ew);
    // The distance from a half.
    let minus_half = opposite(of(HALF));
    lemma_opposite(of(HALF));
    assert(2 * fv <= 5 * u) by (nonlinear_arith)
        requires
            fv * wv - dv * u <= 4 * (e * wv),
            2 * BLOCK * distance(dv - tv) <= dv,
            -distance(dv - tv) <= dv - tv <= distance(dv - tv),
            dv <= 4 * wv,
            tv <= 2 * wv,
            u == 2 * BLOCK * e,
            BLOCK == 0x10_0000_0000_0000,
            e >= 1,
            wv > 0,
    ;
    law_sum_respects_bounds(f, minus_half, of(TWO));
    law_sum_respects_bounds(f, minus_half, minus_half);
    let a = difference_of(f, of(HALF));
    law_finite_between(minus_half, a, of(TWO));
    law_sum_error(f, minus_half);
    lemma_spacing_order(a, of(TWO));
    lemma_spacing(of(TWO));
    let s2 = spacing(of(TWO));
    assert(s2 <= 4 * e) by (nonlinear_arith)
        requires
            s2 == 1 || BLOCK * s2 <= 2 * u,
            u == 2 * BLOCK * e,
            BLOCK > 0,
            e >= 1,
    ;
    let av = a.value();
    assert(distance(2 * av - (2 * fv - u)) <= 4 * e);
    // The offset.
    let o = product_of(a, gap);
    if o.finite() {
        law_product_error(a, gap);
        lemma_spacing(o);
        lemma_offset_error(
            u,
            e,
            spread,
            gap.value(),
            wv,
            tv,
            dv,
            fv,
            av,
            o.value(),
            spacing(o),
        );
    }
    if av > u {
        assert(dv >= wv) by (nonlinear_arith)
            requires
                2 * fv >= 3 * u - 4 * e,
                fv * wv - dv * u <= 4 * (e * wv),
                u == 2 * BLOCK * e,
                BLOCK == 0x10_0000_0000_0000,
                e >= 1,
                wv > 0,
        ;
        let x = distance(dv - tv);
        assert(x <= spread) by (nonlinear_arith)
            requires
                2 * BLOCK * x <= dv,
                dv < 2 * BLOCK * spread,
                BLOCK > 0,
        ;
    }
}

/// The weight up to a value past the mean `low` of a centroid of weight `w`, before the middle
/// to the next mean.
pub(crate) proof fn lemma_past_mean_error(
    before: Binary64,
    w: Binary64,
    low: Binary64,
    high: Binary64,
    v: Binary64,
    s: int,
)
    requires
        before.nonnegative(),
        w.nonnegative(),
        w.value() > 0,
        sum_of(before, w).finite(),
        low.finite(),
        high.finite(),
        low.lt(high),
        difference_of(high, low).finite(),
        low.le(v),
        v.lt(middle_of(low, high)),
        spacing(low) <= s,
        spacing(high) <= s,
    ensures
        ({
            let gap = difference_of(high, low);
            let reached = sum_of(before, w);
            let f = sum_of(of(HALF), quotient_of(difference_of(v, low), gap));
            let c = part_of(before, w, f, reached);
            distance(
                2 * (gap.value() * (c.value() - before.value())) - gap.value() * w.value() - 2 * (
                w.value() * (v.value() - low.value())),
            ) <= 24 * (gap.value() * spacing(reached)) + 7 * (w.value() * s)
        }),
{
    lemma_constants();
    lemma_rounding_unit();
    let u = unity();
    let e = rounding_unit();
    let reached = sum_of(before, w);
    let spread = spacing(reached);
    let gap = difference_of(high, low);
    lemma_spacing(low);
    lemma_gap_error(low, high, s);
    lemma_edge_error(low, high, s);
    law_sum_of_nonnegative(before, w);
    law_finite_between(of(0), before, reached);
    law_finite_between(of(0), w, reached);
    lemma_spacing(reached);
    law_finite_between(low, v, high);
    lemma_distances(v, low, high);
    let y = difference_of(v, low);
    lemma_opposite(low);
    law_finite_between(of(0), y, gap);
    law_sum_error(v, opposite(low));
    lemma_share_error(y, gap);
    law_share_is_between_zero_and_one(y, gap);
    let p = quotient_of(y, gap);
    let f = sum_of(of(HALF), p);
    law_sum_respects_bounds(of(HALF), p, of(TWO));
    law_sum_of_nonnegative(of(HALF), p);
    law_finite_between(of(0), f, of(TWO));
    law_sum_error(of(HALF), p);
    lemma_spacing_order(f, of(TWO));
    lemma_spacing(of(TWO));
    let s2 = spacing(of(TWO));
    assert(s2 <= 4 * e) by (nonlinear_arith)
        requires
            s2 == 1 || BLOCK * s2 <= 2 * u,
            u == 2 * BLOCK * e,
            BLOCK > 0,
            e >= 1,
    ;
    let g = gap.value();
    let wv = w.value();
    let h = v.value() - low.value();
    let yv = y.value();
    let pv = p.value();
    let fv = f.value();
    let z = product_of(w, f);
    law_product_of_nonnegative(w, f);
    let b = before.value();
    let c = part_of(before, w, f, reached);
    let cv = c.value();
    let x = sum_of(before, z);
    law_finite_sum(before, z);
    law_sum_of_nonnegative(before, z);
    let gs = g * spread;
    let gw = g * wv;
    let wh = wv * h;
    let ws = wv * s;
    let r = 2 * (g * (cv - b)) - gw - 2 * wh;
    if reached.lt(x) {
        // The part was cut off at the whole weight.
        assert(c == reached);
        law_sum_error(before, w);
        assert(2 * wh <= gw + 7 * ws) by (nonlinear_arith)
            requires
                2 * h <= g + 7 * s,
                wh == wv * h,
                gw == g * wv,
                ws == wv * s,
                wv > 0,
        ;
        let over = cv - b - wv;
        assert(-spread <= over <= spread);
        assert(g * (cv - b) == gw + g * over) by (nonlinear_arith)
            requires
                over == cv - b - wv,
                gw == g * wv,
        ;
        assert(-gs <= g * over <= gs) by (nonlinear_arith)
            requires
                -spread <= over <= spread,
                gs == g * spread,
                g > 0,
        ;
        assert(gw - 2 * wh <= 20 * gs) by {
            if z.finite() {
                law_product_error(w, f);
                lemma_spacing(z);
                let zv = z.value();
                lemma_part_error(u, e, spread, g, wv, h, yv, pv, fv, zv, spacing(z));
                law_sum_respects_bounds(before, z, reached);
                assert(zv > cv - b);
                assert(g * zv >= g * (cv - b)) by (nonlinear_arith)
                    requires
                        zv >= cv - b,
                        g > 0,
                ;
            } else {
                law_product_commutes(w, f);
                if fv <= u {
                    law_product_with_a_fraction(f, w);
                }
                lemma_past_the_whole(u, e, spread, g, wv, h, yv, pv, fv);
            }
        }
        assert(gs >= 0) by (nonlinear_arith)
            requires
                gs == g * spread,
                g > 0,
                spread >= 1,
        ;
        assert(ws >= 0) by (nonlinear_arith)
            requires
                ws == wv * s,
                wv > 0,
                s >= 1,
        ;
    } else {
        assert(c == x);
        law_finite_between(of(0), x, reached);
        if !z.finite() {
            law_finite_terms(before, z);
        }
        law_product_error(w, f);
        lemma_spacing(z);
        let zv = z.value();
        lemma_part_error(u, e, spread, g, wv, h, yv, pv, fv, zv, spacing(z));
        law_sum_error(before, z);
        lemma_spacing_order(x, reached);
        let over = cv - b - zv;
        assert(-spread <= over <= spread);
        assert(g * (cv - b) == g * zv + g * over) by (nonlinear_arith)
            requires
                over == cv - b - zv,
        ;
        assert(-gs <= g * over <= gs) by (nonlinear_arith)
            requires
                -spread <= over <= spread,
                gs == g * spread,
                g > 0,
        ;
        assert(ws >= 0) by (nonlinear_arith)
            requires
                ws == wv * s,
                wv > 0,
                s >= 1,
        ;
        assert(gs >= 0) by (nonlinear_arith)
            requires
                gs == g * spread,
                g > 0,
                spread >= 1,
        ;
    }
}

/// A fraction past one lies at the middle to the next mean, up to rounding.
proof fn lemma_past_the_whole(
    u: int,
    e: int,
    spread: int,
    g: int,
    w: int,
    h: int,
    y: int,
    p: int,
    fr: int,
)
    requires
        e >= 1,
        u > 0,
        u == 2 * BLOCK * e,
        g > 0,
        spread >= 1,
        0 < w < 2 * BLOCK * spread,
        2 * BLOCK * distance(y - h) <= g,
        distance(p * g - y * u) <= e * g,
        distance(2 * fr - (u + 2 * p)) <= 4 * e,
        fr > u,
    ensures
        g * w - 2 * (w * h) <= 8 * (g * spread),
{
    let gs = g * spread;
    let ew = e * w;
    assert(ew <= u * spread) by (nonlinear_arith)
        requires
            w < 2 * BLOCK * spread,
            u == 2 * BLOCK * e,
            e >= 1,
            ew == e * w,
    ;
    let yu = y * u;
    let ug = u * g;
    let eg = e * g;
    assert(2 * yu >= ug - 6 * eg) by (nonlinear_arith)
        requires
            2 * p >= u - 4 * e,
            yu >= p * g - eg,
            ug == u * g,
            eg == e * g,
            g > 0,
    ;
    let wy = w * y;
    let gw = g * w;
    assert((gw - 2 * wy) * u <= 6 * (gs * u)) by (nonlinear_arith)
        requires
            2 * yu >= ug - 6 * eg,
            yu == y * u,
            ug == u * g,
            eg == e * g,
            wy == w * y,
            gw == g * w,
            gs == g * spread,
            ew == e * w,
            ew <= u * spread,
            w > 0,
            g > 0,
    ;
    assert(gw - 2 * wy <= 6 * gs) by (nonlinear_arith)
        requires
            (gw - 2 * wy) * u <= 6 * (gs * u),
            u > 0,
    ;
    let t = distance(y - h);
    assert(w * t <= gs) by (nonlinear_arith)
        requires
            2 * BLOCK * t <= g,
            0 < w < 2 * BLOCK * spread,
            gs == g * spread,
            t >= 0,
            spread >= 1,
            BLOCK > 0,
    ;
    assert(wy - w * h <= w * t) by (nonlinear_arith)
        requires
            wy == w * y,
            y - h <= t,
            w > 0,
    ;
}

/// The weight up to a value before the mean `high` of a centroid of weight `w`, past the middle
/// from the mean before.
pub(crate) proof fn lemma_before_mean_error(
    before: Binary64,
    w: Binary64,
    low: Binary64,
    high: Binary64,
    v: Binary64,
    s: int,
)
    requires
        before.nonnegative(),
        w.nonnegative(),
        w.value() > 0,
        sum_of(before, w).finite(),
        low.finite(),
        high.finite(),
        low.lt(high),
        difference_of(high, low).finite(),
        middle_of(low, high).lt(v),
        v.lt(high),
        spacing(low) <= s,
        spacing(high) <= s,
    ensures
        ({
            let gap = difference_of(high, low);
            let reached = sum_of(before, w);
            let f = difference_of(of(HALF), quotient_of(difference_of(high, v), gap));
            let c = part_of(before, w, f, before);
            distance(
                2 * (gap.value() * (c.value() - before.value())) - gap.value() * w.value() - 2 * (
                w.value() * (v.value() - high.value())),
            ) <= 24 * (gap.value() * spacing(reached)) + 7 * (w.value() * s)
        }),
{
    lemma_constants();
    lemma_rounding_unit();
    let u = unity();
    let e = rounding_unit();
    let reached = sum_of(before, w);
    let spread = spacing(reached);
    let gap = difference_of(high, low);
    lemma_spacing(low);
    lemma_gap_error(low, high, s);
    lemma_edge_error(low, high, s);
    law_sum_of_nonnegative(before, w);
    law_finite_between(of(0), before, reached);
    law_finite_between(of(0), w, reached);
    lemma_spacing(reached);
    lemma_middle(low, high);
    law_finite_between(low, v, high);
    lemma_distances(v, low, high);
    let y = difference_of(high, v);
    lemma_opposite(v);
    law_finite_between(of(0), y, gap);
    law_sum_error(high, opposite(v));
    lemma_share_error(y, gap);
    law_share_is_between_zero_and_one(y, gap);
    let p = quotient_of(y, gap);
    let minus_p = opposite(p);
    lemma_opposite(p);
    let minus_one = opposite(of(ONE));
    lemma_opposite(of(ONE));
    let f = difference_of(of(HALF), p);
    law_sum_respects_bounds(of(HALF), minus_p, of(ONE));
    law_sum_respects_bounds(of(HALF), minus_p, minus_one);
    law_finite_between(minus_one, f, of(ONE));
    law_sum_error(of(HALF), minus_p);
    lemma_spacing_order(f, of(ONE));
    let g = gap.value();
    let wv = w.value();
    let h = v.value() - high.value();
    let yv = -y.value();
    let pv = -p.value();
    let fv = f.value();
    let z = product_of(w, f);
    law_product_commutes(w, f);
    law_product_with_a_fraction(f, w);
    law_product_error(w, f);
    lemma_spacing(z);
    let zv = z.value();
    assert(pv * g - yv * u == -(p.value() * g - y.value() * u)) by (nonlinear_arith)
        requires
            pv == -p.value(),
            yv == -y.value(),
    ;
    lemma_part_error(u, e, spread, g, wv, h, yv, pv, fv, zv, spacing(z));
    let b = before.value();
    let c = part_of(before, w, f, before);
    let cv = c.value();
    let x = sum_of(before, z);
    law_finite_sum(before, z);
    law_sum_keeps_order(before, z, before, w);
    law_sum_respects_bounds(before, z, before);
    let gs = g * spread;
    let gw = g * wv;
    let wh = wv * h;
    let ws = wv * s;
    assert(gs >= 0) by (nonlinear_arith)
        requires
            gs == g * spread,
            g > 0,
            spread >= 1,
    ;
    assert(ws >= 0) by (nonlinear_arith)
        requires
            ws == wv * s,
            wv > 0,
            s >= 1,
    ;
    if x.lt(before) {
        // The part was cut off at nothing.
        assert(c == before);
        assert(zv < 0);
        assert(g * (cv - b) == 0) by (nonlinear_arith)
            requires
                cv - b == 0,
        ;
        assert(g * zv <= 0) by (nonlinear_arith)
            requires
                zv < 0,
                g > 0,
        ;
        assert(gw + 2 * wh >= -(7 * ws)) by (nonlinear_arith)
            requires
                -(2 * h) <= g + 7 * s,
                wh == wv * h,
                gw == g * wv,
                ws == wv * s,
                wv > 0,
        ;
    } else {
        assert(c == x);
        law_finite_between(before, x, reached);
        law_sum_error(before, z);
        lemma_spacing_order(x, reached);
        let over = cv - b - zv;
        assert(-spread <= over <= spread);
        assert(g * (cv - b) == g * zv + g * over) by (nonlinear_arith)
            requires
                over == cv - b - zv,
        ;
        assert(-gs <= g * over <= gs) by (nonlinear_arith)
            requires
                -spread <= over <= spread,
                gs == g * spread,
                g > 0,
        ;
    }
}

/// The larger of two integers.
pub open spec fn larger(a: int, b: int) -> int {
    if a >= b {
        a
    } else {
        b
    }
}

/// The smaller of two integers.
pub open spec fn smaller(a: int, b: int) -> int {
    if a <= b {
        a
    } else {
        b
    }
}

/// A bound over one gap is a bound over a smaller one.
proof fn lemma_smaller_gap(x: int, p: int, q: int, gap: int, g: int)
    requires
        0 < g <= gap,
        p >= 0,
        x * gap <= p + q * gap,
    ensures
        x * g <= p + q * g,
{
    if x <= q {
        assert(x * g <= q * g) by (nonlinear_arith)
            requires
                x <= q,
                g > 0,
        ;
    } else {
        assert(x * g <= p + q * g) by (nonlinear_arith)
            requires
                x > q,
                0 < g <= gap,
                x * gap <= p + q * gap,
        ;
    }
}

/// An offset that overflows is infinite, and so is the place that it leads to.
pub(crate) proof fn lemma_overflowing_offset(away: Binary64, gap: Binary64, mean: Binary64)
    requires
        away.finite(),
        away.value() > 0,
        gap.finite(),
        gap.value() > 0,
        mean.finite(),
        !product_of(away, gap).finite(),
    ensures
        sum_of(mean, product_of(away, gap)).infinite(),
        !sum_of(mean, product_of(away, gap)).negative(),
{
    lemma_constants();
    law_product_of_nonnegative(away, gap);
    law_product_sign(away, gap);
    lemma_value_sign(away);
    lemma_value_sign(gap);
    reveal(sum_of);
}

/// An offset lies on the side of the mean that its sign says.
pub(crate) proof fn lemma_offset_sign(away: Binary64, gap: Binary64)
    requires
        away.finite(),
        gap.finite(),
        gap.value() > 0,
        product_of(away, gap).finite(),
    ensures
        away.value() < 0 ==> product_of(away, gap).value() <= 0,
        away.value() >= 0 ==> product_of(away, gap).value() >= 0,
{
    law_product_sign(away, gap);
    lemma_value_sign(away);
    lemma_value_sign(gap);
    lemma_value_sign(product_of(away, gap));
    if away.zero() {
        law_zero_product(away, gap);
    }
}

/// A number between two others does not have a larger spacing than both.
pub(crate) proof fn lemma_between_spacing(low: Binary64, x: Binary64, high: Binary64, s: int)
    requires
        low.le(x),
        x.le(high),
        spacing(low) <= s,
        spacing(high) <= s,
    ensures
        spacing(x) <= s,
{
    if distance(x.value()) <= distance(high.value()) {
        lemma_spacing_order(x, high);
    } else {
        lemma_spacing_order(x, low);
    }
}

/// The distance of a multiple.
proof fn lemma_scaled_distance(d: int, g: int)
    requires
        g > 0,
    ensures
        distance(g * d) == distance(d) * g,
{
    assert(d < 0 ==> g * d < 0) by (nonlinear_arith)
        requires
            g > 0,
    ;
    assert(d >= 0 ==> g * d >= 0) by (nonlinear_arith)
        requires
            g > 0,
    ;
    assert(g * d == d * g && (-d) * g == -(g * d)) by (nonlinear_arith);
}

/// A bound over the gap on one side gives the bound over the smaller gap.
proof fn lemma_finish(d: int, g: int, gmin: int, gs: int, ws: int, spread: int)
    requires
        2 * (distance(d) * g) <= 10 * ws + 60 * gs,
        gs == g * spread,
        0 < gmin <= g,
        ws >= 0,
        spread >= 1,
    ensures
        distance(d) * gmin <= 8 * ws + 32 * (spread * gmin),
{
    let q = 30 * spread;
    assert(q * g == 30 * gs) by (nonlinear_arith)
        requires
            q == 30 * spread,
            gs == g * spread,
    ;
    lemma_smaller_gap(distance(d), 5 * ws, q, g, gmin);
    assert(q * gmin == 30 * (spread * gmin)) by (nonlinear_arith)
        requires
            q == 30 * spread,
    ;
    assert(spread * gmin >= 0) by (nonlinear_arith)
        requires
            spread >= 1,
            gmin > 0,
    ;
}

/// The weight up to the mean of a centroid is half of its weight, over every gap.
proof fn lemma_at_mean_error(
    before: Binary64,
    w: Binary64,
    mean: Binary64,
    upper: Binary64,
    v: Binary64,
    g: int,
)
    requires
        before.nonnegative(),
        w.nonnegative(),
        w.value() > 0,
        sum_of(before, w).finite(),
        mean.finite(),
        upper.finite(),
        mean.lt(upper),
        difference_of(upper, mean).finite(),
        v.same(mean),
        g > 0,
    ensures
        ({
            let reached = sum_of(before, w);
            let f = sum_of(
                of(HALF),
                quotient_of(difference_of(v, mean), difference_of(upper, mean)),
            );
            let c = part_of(before, w, f, reached);
            distance(2 * (g * (c.value() - before.value())) - g * w.value()) <= 20 * (g * spacing(
                reached,
            ))
        }),
{
    lemma_constants();
    lemma_rounding_unit();
    let u = unity();
    let e = rounding_unit();
    let reached = sum_of(before, w);
    let spread = spacing(reached);
    let gap = difference_of(upper, mean);
    lemma_opposite(mean);
    law_sum_of_nonnegative(before, w);
    law_finite_between(of(0), before, reached);
    law_finite_between(of(0), w, reached);
    lemma_spacing(reached);
    law_finite_between(mean, v, mean);
    law_difference_of_ordered(upper, mean);
    let y = difference_of(v, mean);
    law_difference_is_a_number(v, mean);
    law_difference_of_ordered(v, mean);
    lemma_value_sign(y);
    law_quotient_of_nonnegative(y, gap);
    let p = quotient_of(y, gap);
    assert(y.value() * u <= 0 * gap.value()) by (nonlinear_arith)
        requires
            y.value() == 0,
    ;
    law_quotient_respects_bound(y, gap, of(0));
    lemma_value_sign(p);
    law_zero_is_neutral(of(HALF), p);
    let f = sum_of(of(HALF), p);
    law_finite_between(of(HALF), f, of(HALF));
    let z = product_of(w, f);
    law_product_commutes(w, f);
    law_product_with_a_fraction(f, w);
    law_product_of_nonnegative(w, f);
    law_product_error(w, f);
    lemma_spacing(z);
    let zv = z.value();
    let wv = w.value();
    assert(0 * g == 0 && 0 * u == 0);
    assert(e * g >= 0) by (nonlinear_arith)
        requires
            e >= 1,
            g > 0,
    ;
    lemma_part_error(u, e, spread, g, wv, 0, 0, 0, f.value(), zv, spacing(z));
    assert(wv * 0 == 0);
    let x = sum_of(before, z);
    law_finite_sum(before, z);
    law_sum_keeps_order(before, z, before, w);
    law_sum_of_nonnegative(before, z);
    law_finite_between(of(0), x, reached);
    let c = part_of(before, w, f, reached);
    assert(c == x);
    law_sum_error(before, z);
    lemma_spacing_order(x, reached);
    let b = before.value();
    let cv = c.value();
    let gs = g * spread;
    let over = cv - b - zv;
    assert(-spread <= over <= spread);
    assert(g * (cv - b) == g * zv + g * over) by (nonlinear_arith)
        requires
            over == cv - b - zv,
    ;
    assert(-gs <= g * over <= gs) by (nonlinear_arith)
        requires
            -spread <= over <= spread,
            gs == g * spread,
            g > 0,
    ;
}

/// The weight up to the value that stands for a target past the middle of a centroid, against the
/// target. `mean` and `upper` are the means around, `v` the value, `c` the weight up to it.
proof fn lemma_round_trip_above(
    before: Binary64,
    w: Binary64,
    target: Binary64,
    low: Binary64,
    mean: Binary64,
    upper: Binary64,
    v: Binary64,
    c: Binary64,
    s: int,
)
    requires
        before.nonnegative(),
        w.nonnegative(),
        sum_of(before, w).finite(),
        before.lt(target),
        target.le(sum_of(before, w)),
        mean.finite(),
        upper.finite(),
        low.le(mean),
        mean.lt(upper),
        difference_of(upper, mean).finite(),
        spacing(mean) <= s,
        spacing(upper) <= s,
        ({
            let away = difference_of(
                quotient_of(difference_of(target, before), w),
                of(HALF),
            );
            &&& !away.lt(of(0))
            &&& v == clamped(
                sum_of(mean, product_of(away, difference_of(upper, mean))),
                low,
                middle_of(mean, upper),
                mean,
            )
        }),
        v.same(middle_of(mean, upper)) ==> c == sum_of(before, w),
        mean.le(v) && v.lt(middle_of(mean, upper)) ==> c == part_of(
            before,
            w,
            sum_of(of(HALF), quotient_of(difference_of(v, mean), difference_of(upper, mean))),
            sum_of(before, w),
        ),
    ensures
        mean.le(v),
        2 * (distance(c.value() - target.value()) * difference_of(upper, mean).value()) <= 10 * (
        w.value() * s) + 60 * (difference_of(upper, mean).value() * spacing(sum_of(before, w))),
{
    lemma_constants();
    let u = unity();
    let reached = sum_of(before, w);
    let spread = spacing(reached);
    let away = difference_of(quotient_of(difference_of(target, before), w), of(HALF));
    let side = difference_of(upper, mean);
    lemma_gap_error(mean, upper, s);
    lemma_edge_error(mean, upper, s);
    lemma_middle(mean, upper);
    lemma_spacing(mean);
    lemma_spacing(reached);
    law_sum_of_nonnegative(before, w);
    law_finite_between(of(0), before, reached);
    law_finite_between(of(0), w, reached);
    law_sum_error(before, w);
    lemma_target_error(before, w, target, side);
    let high = middle_of(mean, upper);
    let g = side.value();
    let wv = w.value();
    let b = before.value();
    let t = target.value() - b;
    let offset = product_of(away, side);
    let x = sum_of(mean, offset);
    let ws = wv * s;
    let gs = g * spread;
    let cv = c.value();
    assert(ws >= wv) by (nonlinear_arith)
        requires
            ws == wv * s,
            wv > 0,
            s >= 1,
    ;
    assert(gs >= 0) by (nonlinear_arith)
        requires
            gs == g * spread,
            g > 0,
            spread >= 1,
    ;
    let d = cv - target.value();
    lemma_scaled_distance(d, g);
    if !offset.finite() {
        // The gap is too large for the offset: the value goes to the end of the cell.
        if distance(away.value()) <= u {
            law_product_with_a_fraction(away, side);
        }
        lemma_overflowing_offset(away, side, mean);
        law_infinities_are_outermost(x);
        law_infinities_are_outermost(high);
        assert(v == high);
        assert(c == reached);
        assert(0 <= d <= 2 * spread);
        assert(d * g <= 2 * gs) by (nonlinear_arith)
            requires
                d <= 2 * spread,
                gs == g * spread,
                g > 0,
        ;
    } else {
        let o = offset.value();
        law_sum_respects_bounds(mean, offset, high);
        law_sum_respects_bounds(mean, offset, mean);
        lemma_offset_sign(away, side);
        law_finite_sum(mean, offset);
        assert(mean.le(x));
        if x.le(high) {
            law_finite_between(mean, x, high);
            law_sum_error(mean, offset);
            lemma_between_spacing(mean, v, upper, s);
        }
        let h = v.value() - mean.value();
        let wo = wv * o;
        let wh = wv * h;
        let gw = g * wv;
        assert(g * (2 * t - wv) == 2 * (g * t) - gw) by (nonlinear_arith)
            requires
                gw == g * wv,
        ;
        let gt = g * t;
        assert(distance(2 * wo - (2 * gt - gw)) <= 24 * gs + 2 * wv);
        if v.same(high) {
            assert(0 <= d <= wv + spread - t);
            assert(2 * o >= g - 8 * s);
            assert(2 * wo >= gw - 8 * ws) by (nonlinear_arith)
                requires
                    2 * o >= g - 8 * s,
                    wo == wv * o,
                    gw == g * wv,
                    ws == wv * s,
                    wv > 0,
            ;
            assert(g * d <= gw + gs - gt) by (nonlinear_arith)
                requires
                    d <= wv + spread - t,
                    gw == g * wv,
                    gs == g * spread,
                    gt == g * t,
                    g > 0,
            ;
            assert(g * d >= 0) by (nonlinear_arith)
                requires
                    d >= 0,
                    g > 0,
            ;
        } else {
            assert(v == x);
            let far = 2 * (h - o);
            assert(-s <= far <= s);
            lemma_place_error(wv, s, h, o);
            let gc = g * (cv - b);
            assert(g * d == gc - gt) by (nonlinear_arith)
                requires
                    d == cv - b - t,
                    gc == g * (cv - b),
                    gt == g * t,
            ;
            lemma_past_mean_error(before, w, mean, upper, v, s);
            assert(distance(2 * gc - gw - 2 * wh) <= 24 * gs + 7 * ws);
        }
    }
}

/// The rounding of a place, in units of the weight.
pub(crate) proof fn lemma_place_error(w: int, s: int, h: int, o: int)
    requires
        -s <= 2 * (h - o) <= s,
        w > 0,
    ensures
        -(w * s) <= 2 * (w * h) - 2 * (w * o) <= w * s,
{
    let far = 2 * (h - o);
    assert(-(w * s) <= w * far <= w * s) by (nonlinear_arith)
        requires
            -s <= far <= s,
            w > 0,
    ;
    assert(w * far == 2 * (w * h) - 2 * (w * o)) by (nonlinear_arith)
        requires
            far == 2 * (h - o),
    ;
}

/// The weight up to the value that stands for a target before the middle of a centroid, against
/// the target, where the value lies before the mean. `lower` and `mean` are the means around, `v`
/// the value, `c` the weight up to it.
proof fn lemma_round_trip_below(
    before: Binary64,
    w: Binary64,
    target: Binary64,
    lower: Binary64,
    mean: Binary64,
    high: Binary64,
    v: Binary64,
    c: Binary64,
    s: int,
)
    requires
        before.nonnegative(),
        w.nonnegative(),
        sum_of(before, w).finite(),
        before.lt(target),
        target.le(sum_of(before, w)),
        lower.finite(),
        mean.finite(),
        lower.lt(mean),
        mean.le(high),
        difference_of(mean, lower).finite(),
        spacing(lower) <= s,
        spacing(mean) <= s,
        v.lt(mean),
        ({
            let away = difference_of(
                quotient_of(difference_of(target, before), w),
                of(HALF),
            );
            &&& away.lt(of(0))
            &&& v == clamped(
                sum_of(mean, product_of(away, difference_of(mean, lower))),
                middle_of(lower, mean),
                high,
                mean,
            )
        }),
        v.same(middle_of(lower, mean)) ==> c == before,
        middle_of(lower, mean).lt(v) ==> c == part_of(
            before,
            w,
            difference_of(
                of(HALF),
                quotient_of(difference_of(mean, v), difference_of(mean, lower)),
            ),
            before,
        ),
    ensures
        2 * (distance(c.value() - target.value()) * difference_of(mean, lower).value()) <= 10 * (
        w.value() * s) + 60 * (difference_of(mean, lower).value() * spacing(sum_of(before, w))),
{
    lemma_constants();
    let reached = sum_of(before, w);
    let spread = spacing(reached);
    let away = difference_of(quotient_of(difference_of(target, before), w), of(HALF));
    let side = difference_of(mean, lower);
    lemma_gap_error(lower, mean, s);
    lemma_edge_error(lower, mean, s);
    lemma_middle(lower, mean);
    lemma_spacing(lower);
    lemma_spacing(reached);
    law_sum_of_nonnegative(before, w);
    law_finite_between(of(0), before, reached);
    law_finite_between(of(0), w, reached);
    lemma_target_error(before, w, target, side);
    let low = middle_of(lower, mean);
    let g = side.value();
    let wv = w.value();
    let b = before.value();
    let t = target.value() - b;
    let offset = product_of(away, side);
    let x = sum_of(mean, offset);
    let ws = wv * s;
    let gs = g * spread;
    let cv = c.value();
    assert(ws >= wv) by (nonlinear_arith)
        requires
            ws == wv * s,
            wv > 0,
            s >= 1,
    ;
    assert(gs >= 0) by (nonlinear_arith)
        requires
            gs == g * spread,
            g > 0,
            spread >= 1,
    ;
    let d = cv - target.value();
    lemma_scaled_distance(d, g);
    law_product_with_a_fraction(away, side);
    let o = offset.value();
    law_sum_respects_bounds(mean, offset, low);
    law_sum_respects_bounds(mean, offset, mean);
    lemma_offset_sign(away, side);
    law_finite_sum(mean, offset);
    if low.le(x) && x.le(high) {
        law_finite_between(low, x, mean);
        law_sum_error(mean, offset);
        lemma_between_spacing(lower, v, mean, s);
    }
    let h = v.value() - mean.value();
    let wo = wv * o;
    let wh = wv * h;
    let gw = g * wv;
    assert(g * (2 * t - wv) == 2 * (g * t) - gw) by (nonlinear_arith)
        requires
            gw == g * wv,
    ;
    let gt = g * t;
    assert(distance(2 * wo - (2 * gt - gw)) <= 24 * gs + 2 * wv);
    if v.same(low) {
        assert(2 * o <= -g + 8 * s);
        assert(2 * wo <= -gw + 8 * ws) by (nonlinear_arith)
            requires
                2 * o <= -g + 8 * s,
                wo == wv * o,
                gw == g * wv,
                ws == wv * s,
                wv > 0,
        ;
        assert(d == -t);
        assert(g * d == -gt) by (nonlinear_arith)
            requires
                d == -t,
                gt == g * t,
        ;
        assert(gt >= 0) by (nonlinear_arith)
            requires
                gt == g * t,
                g > 0,
                t >= 0,
        ;
    } else {
        assert(v == x);
        let far = 2 * (h - o);
        assert(-s <= far <= s);
        lemma_place_error(wv, s, h, o);
        let gc = g * (cv - b);
        assert(g * d == gc - gt) by (nonlinear_arith)
            requires
                d == cv - b - t,
                gc == g * (cv - b),
                gt == g * t,
        ;
        lemma_before_mean_error(before, w, lower, mean, v, s);
        assert(distance(2 * gc - gw - 2 * wh) <= 24 * gs + 7 * ws);
    }
}

/// The weight up to the mean of a centroid, which stands for a target just before the middle of
/// the centroid, against the target.
proof fn lemma_round_trip_at_mean(
    before: Binary64,
    w: Binary64,
    target: Binary64,
    lower: Binary64,
    mean: Binary64,
    upper: Binary64,
    v: Binary64,
    c: Binary64,
    s: int,
)
    requires
        before.nonnegative(),
        w.nonnegative(),
        sum_of(before, w).finite(),
        before.lt(target),
        target.le(sum_of(before, w)),
        lower.finite(),
        mean.finite(),
        upper.finite(),
        lower.lt(mean),
        mean.lt(upper),
        difference_of(mean, lower).finite(),
        difference_of(upper, mean).finite(),
        spacing(lower) <= s,
        spacing(mean) <= s,
        spacing(upper) <= s,
        mean.le(v),
        ({
            let away = difference_of(
                quotient_of(difference_of(target, before), w),
                of(HALF),
            );
            &&& away.lt(of(0))
            &&& v == clamped(
                sum_of(mean, product_of(away, difference_of(mean, lower))),
                middle_of(lower, mean),
                middle_of(mean, upper),
                mean,
            )
        }),
        v.same(middle_of(mean, upper)) ==> c == sum_of(before, w),
        v.lt(middle_of(mean, upper)) ==> c == part_of(
            before,
            w,
            sum_of(of(HALF), quotient_of(difference_of(v, mean), difference_of(upper, mean))),
            sum_of(before, w),
        ),
    ensures
        ({
            let gap = smaller(
                difference_of(mean, lower).value(),
                difference_of(upper, mean).value(),
            );
            distance(c.value() - target.value()) * gap <= 8 * (w.value() * s) + 32 * (spacing(
                sum_of(before, w),
            ) * gap)
        }),
{
    lemma_constants();
    let reached = sum_of(before, w);
    let spread = spacing(reached);
    let away = difference_of(quotient_of(difference_of(target, before), w), of(HALF));
    let side = difference_of(mean, lower);
    let high_gap = difference_of(upper, mean);
    lemma_gap_error(lower, mean, s);
    lemma_gap_error(mean, upper, s);
    lemma_edge_error(lower, mean, s);
    lemma_edge_error(mean, upper, s);
    lemma_middle(lower, mean);
    lemma_middle(mean, upper);
    lemma_spacing(lower);
    lemma_spacing(reached);
    law_sum_of_nonnegative(before, w);
    law_finite_between(of(0), before, reached);
    law_finite_between(of(0), w, reached);
    law_sum_error(before, w);
    lemma_target_error(before, w, target, side);
    let low = middle_of(lower, mean);
    let high = middle_of(mean, upper);
    let g = side.value();
    let gmin = smaller(g, high_gap.value());
    let wv = w.value();
    let b = before.value();
    let t = target.value() - b;
    let offset = product_of(away, side);
    let x = sum_of(mean, offset);
    let ws = wv * s;
    let gs = g * spread;
    let cv = c.value();
    assert(ws >= wv) by (nonlinear_arith)
        requires
            ws == wv * s,
            wv > 0,
            s >= 1,
    ;
    assert(gs >= 0) by (nonlinear_arith)
        requires
            gs == g * spread,
            g > 0,
            spread >= 1,
    ;
    let d = cv - target.value();
    law_product_with_a_fraction(away, side);
    let o = offset.value();
    law_sum_respects_bounds(mean, offset, low);
    law_sum_respects_bounds(mean, offset, mean);
    lemma_offset_sign(away, side);
    law_finite_sum(mean, offset);
    assert(v == x && x.same(mean));
    if v.same(high) {
        // The cell ends at the mean.
        let hg = high_gap.value();
        assert(hg <= 7 * s);
        assert(0 <= d <= wv + spread);
        assert(d * hg <= 7 * ws + spread * hg) by (nonlinear_arith)
            requires
                0 <= d <= wv + spread,
                0 < hg <= 7 * s,
                ws == wv * s,
                wv > 0,
        ;
        lemma_smaller_gap(d, 7 * ws, spread, hg, gmin);
        assert(spread * gmin >= 0) by (nonlinear_arith)
            requires
                spread >= 1,
                gmin > 0,
        ;
    } else {
        law_finite_between(low, x, mean);
        law_sum_error(mean, offset);
        lemma_between_spacing(lower, v, mean, s);
        let h = v.value() - mean.value();
        assert(h == 0);
        let wo = wv * o;
        let gw = g * wv;
        let gt = g * t;
        assert(g * (2 * t - wv) == 2 * gt - gw) by (nonlinear_arith)
            requires
                gw == g * wv,
                gt == g * t,
        ;
        assert(distance(2 * wo - (2 * gt - gw)) <= 24 * gs + 2 * wv);
        lemma_place_error(wv, s, h, o);
        assert(wv * h == 0) by (nonlinear_arith)
            requires
                h == 0,
        ;
        let gc = g * (cv - b);
        assert(g * d == gc - gt) by (nonlinear_arith)
            requires
                d == cv - b - t,
                gc == g * (cv - b),
                gt == g * t,
        ;
        lemma_at_mean_error(before, w, mean, upper, v, g);
        assert(2 * distance(g * d) <= 10 * ws + 60 * gs);
        lemma_scaled_distance(d, g);
        lemma_finish(d, g, gmin, gs, ws, spread);
    }
}

/// The number of means up to a value between two of them.
proof fn lemma_reach_between(cs: Seq<Centroid>, value: Binary64, k: int)
    requires
        increasing(cs),
        0 < k < cs.len(),
        cs[k - 1].mean.le(value),
        value.lt(cs[k].mean),
    ensures
        reach(cs, value) == k,
{
    lemma_reach_bounds(cs, value, 0);
    let r = reach(cs, value);
    if r < k {
        assert(cs[r].mean.le(cs[k - 1].mean));
    }
    if r > k {
        assert(!value.lt(cs[k].mean));
    }
}

/// The fraction of the weight of centroid `k` that a target asks for, on top of the weight before
/// it.
pub open spec fn fraction_at(ws: Seq<Binary64>, target: Binary64, k: int) -> Binary64 {
    quotient_of(difference_of(target, total_of(ws.take(k))), ws[k])
}

/// The gap between the mean of centroid `k` and the nearer of its neighbours. The first and the
/// last centroid have one neighbour.
pub open spec fn nearer_gap(cs: Seq<Centroid>, k: int) -> int {
    let low = difference_of(cs[k].mean, lower_mean(cs, k)).value();
    let high = difference_of(upper_mean(cs, k), cs[k].mean).value();
    if k == 0 {
        high
    } else if k == cs.len() - 1 {
        low
    } else {
        smaller(low, high)
    }
}

/// A target that asks for half of a weight is not zero.
proof fn lemma_half_is_something(target: Binary64, before: Binary64, w: Binary64)
    requires
        target.nonnegative(),
        target.finite(),
        before == of(0),
        w.nonnegative(),
        w.finite(),
        of(HALF).le(quotient_of(difference_of(target, before), w)),
    ensures
        before.lt(target),
{
    lemma_constants();
    if !before.lt(target) {
        let d = difference_of(target, before);
        law_difference_is_a_number(target, before);
        law_difference_of_ordered(target, before);
        lemma_value_sign(d);
        lemma_value_sign(w);
        if w.zero() {
            reveal(quotient_of);
        } else {
            assert(d.value() * unity() <= 0 * w.value()) by (nonlinear_arith)
                requires
                    d.value() == 0,
            ;
            law_quotient_respects_bound(d, w, of(0));
        }
    }
}

/// The nearer of the gaps of a centroid is a gap, and no larger than any.
proof fn lemma_nearer_gap(cs: Seq<Centroid>, k: int)
    requires
        increasing(cs),
        0 <= k < cs.len(),
        cs.len() >= 2,
        lower_mean(cs, k).finite(),
        upper_mean(cs, k).finite(),
        difference_of(cs[k].mean, lower_mean(cs, k)).finite(),
        difference_of(upper_mean(cs, k), cs[k].mean).finite(),
    ensures
        nearer_gap(cs, k) > 0,
        k > 0 ==> nearer_gap(cs, k) <= difference_of(cs[k].mean, lower_mean(cs, k)).value(),
        k + 1 < cs.len() ==> nearer_gap(cs, k) <= difference_of(
            upper_mean(cs, k),
            cs[k].mean,
        ).value(),
{
    lemma_constants();
    if k > 0 {
        assert(cs[k - 1].mean.lt(cs[k].mean));
        law_difference_of_ordered(cs[k].mean, cs[k - 1].mean);
    }
    if k + 1 < cs.len() {
        assert(cs[k].mean.lt(cs[k + 1].mean));
        law_difference_of_ordered(cs[k + 1].mean, cs[k].mean);
    }
}

/// The weight up to the value at a quantile is the weight that the quantile asks for, up to
/// rounding. Where the running total crosses at centroid `k`, the two differ by
///
/// - 8 times the weight of the centroid, times the spacing of the numbers at the neighbouring
///   means, divided by the smaller of the gaps to those means, and
/// - 32 times the spacing of the numbers at the running total
///
/// at most. The first half of the first centroid lies at the first mean as a whole, and the second
/// half of the last centroid at the last mean: there the quantiles have one value in common.
pub proof fn law_quantile_and_share_are_inverse(cs: Seq<Centroid>, ws: Seq<Binary64>, q: Binary64)
    requires
        increasing(cs),
        weighty(ws),
        ws.len() == cs.len(),
        cs.len() >= 2,
        total_of(ws).finite(),
        of(0).lt(q),
        q.lt(of(ONE)),
        ({
            let target = product_of(q, total_of(ws));
            let k = crossing(ws, target, 0);
            &&& lower_mean(cs, k).finite()
            &&& upper_mean(cs, k).finite()
            &&& difference_of(cs[k].mean, lower_mean(cs, k)).finite()
            &&& difference_of(upper_mean(cs, k), cs[k].mean).finite()
            &&& k == 0 ==> of(HALF).le(fraction_at(ws, target, k))
            &&& k == cs.len() - 1 ==> quantile_of(cs, ws, q).lt(cs.last().mean)
        }),
    ensures
        ({
            let target = product_of(q, total_of(ws));
            let k = crossing(ws, target, 0);
            let reached = cumulative_of(cs, ws, quantile_of(cs, ws, q));
            let gap = nearer_gap(cs, k);
            let s = larger(spacing(lower_mean(cs, k)), spacing(upper_mean(cs, k)));
            &&& 0 <= k < cs.len()
            &&& gap > 0
            &&& distance(reached.value() - target.value()) * gap <= 8 * (ws[k].value() * s) + 32 * (
            spacing(total_of(ws.take(k + 1))) * gap)
        }),
{
    lemma_constants();
    let n = cs.len() as int;
    let all = total_of(ws);
    let target = product_of(q, all);
    let k = crossing(ws, target, 0);
    lemma_target(ws, q);
    lemma_crossing(ws, target, 0);
    assert(ws.take(n) == ws);
    assert(k < n) by {
        if k == n {
            assert(!target.le(total_of(ws.take(n - 1 + 1))));
        }
    }
    let lower = lower_mean(cs, k);
    let mean = cs[k].mean;
    let upper = upper_mean(cs, k);
    let w = ws[k];
    let s = larger(spacing(lower), spacing(upper));
    law_running_total_grows(ws, k, k + 1);
    law_running_total_grows(ws, k + 1, n);
    lemma_total_step(ws, k);
    let before = total_of(ws.take(k));
    let reached = total_of(ws.take(k + 1));
    assert(w.nonnegative());
    law_finite_between(of(0), reached, all);
    law_sum_of_nonnegative(before, w);
    law_finite_between(of(0), w, reached);
    if k > 0 {
        assert(!target.le(total_of(ws.take(k - 1 + 1))));
        assert(cs[k - 1].mean.lt(cs[k].mean));
        lemma_middle(lower, mean);
    } else {
        assert(ws.take(0).len() == 0);
        law_finite_between(of(0), target, all);
        lemma_half_is_something(target, before, w);
    }
    assert(before.lt(target));
    if k + 1 < n {
        assert(cs[k].mean.lt(cs[k + 1].mean));
        lemma_middle(mean, upper);
    }
    law_finite_between(lower, mean, upper);
    lemma_between_spacing(lower, mean, upper, s);
    let v = quantile_of(cs, ws, q);
    assert(v == interpolated(cs, ws, target, k));
    law_interpolation_stays_in_the_cell(cs, ws, target, k);
    law_cell_holds_its_mean(cs, k);
    let c = cumulative_of(cs, ws, v);
    let away = difference_of(fraction_at(ws, target, k), of(HALF));
    let spread = spacing(reached);
    let wss = w.value() * s;
    lemma_spacing(reached);
    lemma_spacing(lower);
    assert(wss >= 0) by (nonlinear_arith)
        requires
            wss == w.value() * s,
            w.value() >= 0,
            s >= 1,
    ;
    if v.lt(mean) {
        lemma_reach_between(cs, v, k);
        assert(c == cumulative_between(cs, ws, v, k));
        lemma_total_step(ws, k - 1);
    } else if k + 1 < n {
        lemma_reach_between(cs, v, k + 1);
        assert(c == cumulative_between(cs, ws, v, k + 1));
    }
    lemma_nearer_gap(cs, k);
    lemma_target_error(before, w, target, of(ONE));
    if k == 0 {
        let fraction = fraction_at(ws, target, k);
        law_difference_is_a_number(fraction, of(HALF));
        law_difference_of_ordered(fraction, of(HALF));
        assert(!away.lt(of(0)));
    }
    if k == n - 1 && !away.lt(of(0)) {
        // Past the middle of the last centroid everything lies at the last mean.
        law_difference_of_ordered(upper, mean);
        law_zero_product(away, difference_of(upper, mean));
        law_zero_is_neutral(mean, product_of(away, difference_of(upper, mean)));
        assert(v.same(mean));
    }
    let gap = nearer_gap(cs, k);
    let d = c.value() - target.value();
    if v.lt(mean) && away.lt(of(0)) {
        lemma_round_trip_below(before, w, target, lower, mean, upper_edge(cs, k), v, c, s);
        let g = difference_of(mean, lower).value();
        lemma_finish(d, g, gap, g * spread, wss, spread);
    } else if !away.lt(of(0)) {
        assert(k + 1 < n);
        lemma_round_trip_above(before, w, target, lower_edge(cs, k), mean, upper, v, c, s);
        let g = difference_of(upper, mean).value();
        lemma_finish(d, g, gap, g * spread, wss, spread);
    } else {
        lemma_round_trip_at_mean(before, w, target, lower, mean, upper, v, c, s);
    }
}

/// The first half of the first centroid lies at the first mean, and the second half of the last
/// centroid at the last mean.
pub proof fn law_outer_halves_lie_at_the_outer_means(
    cs: Seq<Centroid>,
    ws: Seq<Binary64>,
    q: Binary64,
)
    requires
        ordered(cs),
        weighty(ws),
        ws.len() == cs.len(),
        cs.len() > 0,
        total_of(ws).finite(),
        of(0).lt(q),
        q.lt(of(ONE)),
    ensures
        ({
            let target = product_of(q, total_of(ws));
            let k = crossing(ws, target, 0);
            let fraction = fraction_at(ws, target, k);
            &&& 0 <= k < cs.len()
            &&& k == 0 && cs[k].mean.finite() && fraction.lt(of(HALF)) ==> quantile_of(
                cs,
                ws,
                q,
            ).same(cs[0].mean)
            &&& k == cs.len() - 1 && cs[k].mean.finite() && of(HALF).le(fraction) ==> quantile_of(
                cs,
                ws,
                q,
            ).same(cs.last().mean)
        }),
{
    lemma_constants();
    let n = cs.len() as int;
    let all = total_of(ws);
    let target = product_of(q, all);
    let k = crossing(ws, target, 0);
    lemma_target(ws, q);
    lemma_crossing(ws, target, 0);
    assert(ws.take(n) == ws);
    assert(k < n) by {
        if k == n {
            assert(!target.le(total_of(ws.take(n - 1 + 1))));
        }
    }
    let mean = cs[k].mean;
    let w = ws[k];
    law_running_total_grows(ws, k, k + 1);
    law_running_total_grows(ws, k + 1, n);
    lemma_total_step(ws, k);
    let before = total_of(ws.take(k));
    let reached = total_of(ws.take(k + 1));
    assert(w.nonnegative());
    law_finite_between(of(0), reached, all);
    law_sum_of_nonnegative(before, w);
    law_finite_between(of(0), w, reached);
    law_finite_between(of(0), target, all);
    law_cell_holds_its_mean(cs, k);
    let fraction = fraction_at(ws, target, k);
    let away = difference_of(fraction, of(HALF));
    let v = quantile_of(cs, ws, q);
    assert(v == interpolated(cs, ws, target, k));
    assert(mean.finite() ==> difference_of(mean, mean).zero()) by {
        if mean.finite() {
            law_difference_is_a_number(mean, mean);
            law_difference_of_ordered(mean, mean);
        }
    }
    if mean.finite() && k == 0 && fraction.lt(of(HALF)) {
        assert(ws.take(0).len() == 0);
        let d = difference_of(target, before);
        law_difference_is_a_number(target, before);
        law_difference_of_ordered(target, before);
        lemma_value_sign(w);
        if w.zero() {
            // Nothing over nothing is no number.
            law_zero_is_neutral(before, w);
            lemma_value_sign(d);
            reveal(quotient_of);
        } else {
            law_quotient_of_nonnegative(d, w);
        }
        law_finite_between(of(0), fraction, of(HALF));
        let minus_half = opposite(of(HALF));
        lemma_opposite(of(HALF));
        law_sum_respects_bounds(fraction, minus_half, minus_half);
        law_sum_respects_bounds(fraction, minus_half, of(0));
        law_finite_between(minus_half, away, of(0));
        law_sum_error(fraction, minus_half);
        law_zero_product(away, difference_of(mean, mean));
        law_zero_is_neutral(mean, product_of(away, difference_of(mean, mean)));
    }
    if mean.finite() && k == n - 1 && of(HALF).le(fraction) {
        if k > 0 {
            assert(!target.le(total_of(ws.take(k - 1 + 1))));
        } else {
            assert(ws.take(0).len() == 0);
            lemma_half_is_something(target, before, w);
        }
        lemma_target_error(before, w, target, of(ONE));
        law_difference_is_a_number(fraction, of(HALF));
        law_difference_of_ordered(fraction, of(HALF));
        law_zero_product(away, difference_of(mean, mean));
        law_zero_is_neutral(mean, product_of(away, difference_of(mean, mean)));
    }
}

} // verus!
