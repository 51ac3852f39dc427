//! What the value at a quantile is: the place in the cell of a centroid that the running total asks
//! for.

use vstd::prelude::*;

use crate::binary64::arithmetic::{
    difference_of, distance, product_of, quotient_of, sum_of, unity,
};
use crate::binary64::errors::{
    law_product_with_a_fraction, law_sum_error, lemma_rounding_unit, lemma_spacing, rounding_unit,
    spacing,
};
use crate::binary64::laws::{
    law_difference_is_a_number, law_difference_of_ordered, law_finite_between, law_finite_sum,
    law_infinities_are_outermost, law_nan_spreads, law_one_is_neutral, law_product_commutes,
    law_quotient_of_nonnegative, law_quotient_respects_bound,
    law_sum_of_nonnegative, law_sum_respects_bounds, law_zero_is_neutral, law_zero_product,
    lemma_constants,
};
use crate::binary64::number::{lemma_opposite, lemma_value_sign, of, opposite, HALF, ONE, TWO};
use crate::binary64::rank::BLOCK;
use crate::binary64::Binary64;
use crate::cells::{
    clamped, lemma_middle, lower_edge, lower_mean, middle_of, upper_edge, upper_mean,
};
use crate::digest::Centroid;
use crate::laws::quantiles::lemma_target;
use crate::laws::round_trip::{
    larger, lemma_between_spacing, lemma_edge_error, lemma_gap_error, lemma_offset_sign,
    lemma_overflowing_offset, lemma_place_error, lemma_target_error,
};
use crate::quantile::{crossing, interpolated, lemma_crossing, quantile_of};
use crate::weights::{law_running_total_grows, lemma_total_step, total_of, weighty};

verus! {

/// The number between two means is half-way between them, up to four spacings.
pub proof fn law_middle_is_half_way(low: Binary64, high: Binary64)
    requires
        low.le(high),
        low.finite(),
        high.finite(),
    ensures
        distance(2 * middle_of(low, high).value() - (low.value() + high.value())) <= 4 * larger(
            spacing(low),
            spacing(high),
        ),
        low.le(middle_of(low, high)),
        middle_of(low, high).le(high),
        low.lt(high) ==> middle_of(low, high).lt(high),
{
    lemma_spacing(low);
    lemma_middle(low, high);
    if low.lt(high) {
        lemma_edge_error(low, high, larger(spacing(low), spacing(high)));
    }
}

/// Centroid `k` is the first at which the running total of the weights reaches `target`.
pub open spec fn reaches_first(ws: Seq<Binary64>, target: Binary64, k: int) -> bool {
    &&& 0 <= k < ws.len()
    &&& target.le(total_of(ws.take(k + 1)))
    &&& forall|j: int| 0 <= j < k ==> !target.le(#[trigger] total_of(ws.take(j + 1)))
}

/// There is one such centroid, and it is the crossing.
proof fn lemma_reaches_first(ws: Seq<Binary64>, target: Binary64, k: int)
    requires
        reaches_first(ws, target, k),
    ensures
        crossing(ws, target, 0) == k,
{
    lemma_crossing(ws, target, 0);
    let c = crossing(ws, target, 0);
    if c < k {
        assert(!target.le(total_of(ws.take(c + 1))));
    }
    if k < c {
        assert(!target.le(total_of(ws.take(k + 1))));
    }
}

/// The mean before that of centroid `k`; its own, if there is none.
pub open spec fn mean_before(cs: Seq<Centroid>, k: int) -> Binary64 {
    if k == 0 {
        cs[0].mean
    } else {
        cs[k - 1].mean
    }
}

/// The mean after that of centroid `k`; its own, if there is none.
pub open spec fn mean_after(cs: Seq<Centroid>, k: int) -> Binary64 {
    if k == cs.len() - 1 {
        cs[k].mean
    } else {
        cs[k + 1].mean
    }
}

/// The mean of centroid `k` is a number that lies between those of its neighbours.
pub open spec fn in_place(cs: Seq<Centroid>, k: int) -> bool {
    &&& mean_before(cs, k).le(cs[k].mean)
    &&& cs[k].mean.le(mean_after(cs, k))
}

/// The cell of a centroid between its neighbours, and a value inside of it.
proof fn lemma_cell(cs: Seq<Centroid>, ws: Seq<Binary64>, target: Binary64, k: int)
    requires
        0 <= k < cs.len(),
        in_place(cs, k),
    ensures
        lower_mean(cs, k) == mean_before(cs, k),
        upper_mean(cs, k) == mean_after(cs, k),
        lower_mean(cs, k).le(lower_edge(cs, k)),
        lower_edge(cs, k).le(cs[k].mean),
        cs[k].mean.le(upper_edge(cs, k)),
        upper_edge(cs, k).le(upper_mean(cs, k)),
        lower_edge(cs, k).le(interpolated(cs, ws, target, k)),
        interpolated(cs, ws, target, k).le(upper_edge(cs, k)),
{
    lemma_middle(lower_mean(cs, k), cs[k].mean);
    lemma_middle(cs[k].mean, upper_mean(cs, k));
}

/// The value at a quantile lies in the cell of the first centroid at which the running total of the
/// weights reaches the quantile times the total: between its mean and those of its neighbours, at
/// most half-way to them. Means may be equal, and nothing is asked of the weights, nor of the order of
/// other means.
pub proof fn law_quantile_lies_in_the_cell_that_is_reached(
    cs: Seq<Centroid>,
    ws: Seq<Binary64>,
    q: Binary64,
    k: int,
)
    requires
        ws.len() == cs.len(),
        of(0).lt(q),
        q.lt(of(ONE)),
        reaches_first(ws, product_of(q, total_of(ws)), k),
        in_place(cs, k),
    ensures
        ({
            let v = quantile_of(cs, ws, q);
            let mean = cs[k].mean;
            &&& k == 0 ==> mean.le(v)
            &&& k > 0 ==> {
                let lower = cs[k - 1].mean;
                &&& lower.le(v)
                &&& lower.finite() && mean.finite() && v.finite() ==> lower.value() + mean.value()
                    - 4 * larger(spacing(lower), spacing(mean)) <= 2 * v.value()
            }
            &&& k == cs.len() - 1 ==> v.le(mean)
            &&& k < cs.len() - 1 ==> {
                let upper = cs[k + 1].mean;
                &&& v.le(upper)
                &&& upper.finite() && mean.finite() && v.finite() ==> 2 * v.value() <= mean.value()
                    + upper.value() + 4 * larger(spacing(mean), spacing(upper))
            }
        }),
{
    let target = product_of(q, total_of(ws));
    lemma_reaches_first(ws, target, k);
    lemma_cell(cs, ws, target, k);
    let mean = cs[k].mean;
    if k > 0 {
        if cs[k - 1].mean.finite() && mean.finite() {
            law_middle_is_half_way(cs[k - 1].mean, mean);
        }
    }
    if k + 1 < cs.len() {
        if cs[k + 1].mean.finite() && mean.finite() {
            law_middle_is_half_way(mean, cs[k + 1].mean);
        }
    }
}

/// Outside of the open interval from 0 to 1 a quantile has the first or the last mean for its value;
/// so has one that is no number, and one that the running total never reaches. No centroids make
/// zero.
pub proof fn law_outer_quantiles_are_the_outer_means(
    cs: Seq<Centroid>,
    ws: Seq<Binary64>,
    q: Binary64,
)
    requires
        ws.len() == cs.len(),
    ensures
        cs.len() == 0 ==> quantile_of(cs, ws, q) == of(0),
        cs.len() > 0 && q.le(of(0)) ==> quantile_of(cs, ws, q) == cs[0].mean,
        cs.len() > 0 && of(ONE).le(q) ==> quantile_of(cs, ws, q) == cs[cs.len() - 1].mean,
        cs.len() > 0 && q.nan() ==> quantile_of(cs, ws, q) == cs[cs.len() - 1].mean,
        cs.len() > 0 && of(0).lt(q) && q.lt(of(ONE)) && (forall|j: int|
            0 <= j < ws.len() ==> !product_of(q, total_of(ws)).le(
                #[trigger] total_of(ws.take(j + 1)),
            )) ==> quantile_of(cs, ws, q) == cs[cs.len() - 1].mean,
{
    lemma_constants();
    let target = product_of(q, total_of(ws));
    lemma_crossing(ws, target, 0);
    if q.nan() {
        law_nan_spreads(q, total_of(ws));
    }
}

/// The place of a value in its cell, from the rounded offset `o` and the place `h` that it leads to.
proof fn lemma_interpolated_place(
    w: int,
    s: int,
    spread: int,
    g: int,
    t: int,
    o: int,
    h: int,
)
    requires
        w > 0,
        s >= 1,
        spread >= 1,
        g > 0,
        0 < t <= w + spread,
        distance(2 * (w * o) - g * (2 * t - w)) <= 24 * (g * spread) + 2 * w,
        ({
            ||| -s <= 2 * (h - o) <= s
            ||| o >= h && distance(2 * h - g) <= 7 * s
            ||| o <= h && distance(2 * h + g) <= 7 * s
        }),
    ensures
        distance(2 * (w * h) - g * (2 * t - w)) <= 26 * (g * spread) + 9 * (w * s),
{
    let ws = w * s;
    let gs = g * spread;
    let wo = w * o;
    let wh = w * h;
    let gw = g * w;
    let gt = g * t;
    assert(ws >= w) by (nonlinear_arith)
        requires
            ws == w * s,
            w > 0,
            s >= 1,
    ;
    assert(gs >= 0) by (nonlinear_arith)
        requires
            gs == g * spread,
            g > 0,
            spread >= 1,
    ;
    assert(g * (2 * t - w) == 2 * gt - gw) by (nonlinear_arith)
        requires
            gt == g * t,
            gw == g * w,
    ;
    assert(0 <= gt <= gw + gs) by (nonlinear_arith)
        requires
            gt == g * t,
            gw == g * w,
            gs == g * spread,
            0 < t <= w + spread,
            g > 0,
    ;
    if -s <= 2 * (h - o) <= s {
        lemma_place_error(w, s, h, o);
    } else if o >= h && distance(2 * h - g) <= 7 * s {
        assert(wo >= wh) by (nonlinear_arith)
            requires
                wo == w * o,
                wh == w * h,
                o >= h,
                w > 0,
        ;
        assert(2 * wh >= gw - 7 * ws) by (nonlinear_arith)
            requires
                2 * h >= g - 7 * s,
                wh == w * h,
                gw == g * w,
                ws == w * s,
                w > 0,
        ;
    } else {
        assert(wo <= wh) by (nonlinear_arith)
            requires
                wo == w * o,
                wh == w * h,
                o <= h,
                w > 0,
        ;
        assert(2 * wh <= -gw + 7 * ws) by (nonlinear_arith)
            requires
                2 * h <= -g + 7 * s,
                wh == w * h,
                gw == g * w,
                ws == w * s,
                w > 0,
        ;
    }
}

/// The value at a quantile lies as far from the mean of its centroid as the quantile lies from the
/// middle of the centroid's weight: half of the weight is spread evenly over the way to each
/// neighbouring mean. With `t` the weight that the target asks for on top of the weight before the
/// centroid, `w` the weight of the centroid, and `g` the gap to the mean before it or after it,
/// depending on the side of the middle, the value `v` is such that `2 * w * (v - mean)` is
/// `g * (2 * t - w)`, up to rounding. The first centroid has no gap before it, and the last one none
/// after it.
pub proof fn law_quantile_is_interpolated(
    cs: Seq<Centroid>,
    ws: Seq<Binary64>,
    q: Binary64,
    k: int,
)
    requires
        weighty(ws),
        ws.len() == cs.len(),
        total_of(ws).finite(),
        of(0).lt(q),
        q.lt(of(ONE)),
        of(0).lt(product_of(q, total_of(ws))),
        reaches_first(ws, product_of(q, total_of(ws)), k),
        in_place(cs, k),
        mean_before(cs, k).finite(),
        mean_after(cs, k).finite(),
        difference_of(cs[k].mean, mean_before(cs, k)).finite(),
        difference_of(mean_after(cs, k), cs[k].mean).finite(),
    ensures
        ({
            let v = quantile_of(cs, ws, q).value();
            let mean = cs[k].mean.value();
            let t = product_of(q, total_of(ws)).value() - total_of(ws.take(k)).value();
            let w = ws[k].value();
            let low = difference_of(cs[k].mean, mean_before(cs, k)).value();
            let high = difference_of(mean_after(cs, k), cs[k].mean).value();
            let g = if 2 * t < w {
                low
            } else {
                high
            };
            let s = larger(spacing(mean_before(cs, k)), spacing(mean_after(cs, k)));
            &&& k == 0 ==> low == 0
            &&& k == cs.len() - 1 ==> high == 0
            &&& quantile_of(cs, ws, q).finite()
            &&& distance(2 * (w * (v - mean)) - g * (2 * t - w)) <= 80 * (larger(low, high)
                * spacing(total_of(ws.take(k + 1)))) + 16 * (w * s)
        }),
{
    lemma_constants();
    let n = cs.len() as int;
    let all = total_of(ws);
    let target = product_of(q, all);
    lemma_target(ws, q);
    lemma_reaches_first(ws, target, k);
    assert(ws.take(n) == ws);
    law_running_total_grows(ws, k, k + 1);
    law_running_total_grows(ws, k + 1, n);
    lemma_total_step(ws, k);
    let before = total_of(ws.take(k));
    let reached = total_of(ws.take(k + 1));
    let w = ws[k];
    assert(w.nonnegative());
    law_finite_between(of(0), reached, all);
    law_sum_of_nonnegative(before, w);
    law_finite_between(of(0), w, reached);
    law_finite_between(of(0), before, reached);
    law_finite_between(of(0), target, reached);
    if k > 0 {
        assert(!target.le(total_of(ws.take(k - 1 + 1))));
    } else {
        assert(ws.take(0).len() == 0);
    }
    assert(before.lt(target));
    let lower = lower_mean(cs, k);
    let mean = cs[k].mean;
    let upper = upper_mean(cs, k);
    lemma_cell(cs, ws, target, k);
    law_finite_between(lower, mean, upper);
    let s = larger(spacing(lower), spacing(upper));
    lemma_between_spacing(lower, mean, upper, s);
    lemma_spacing(lower);
    lemma_spacing(reached);
    law_difference_of_ordered(mean, lower);
    law_difference_of_ordered(upper, mean);
    let low_gap = difference_of(mean, lower);
    let high_gap = difference_of(upper, mean);
    lemma_value_sign(low_gap);
    lemma_value_sign(high_gap);
    let away = difference_of(quotient_of(difference_of(target, before), w), of(HALF));
    let side = if away.lt(of(0)) {
        low_gap
    } else {
        high_gap
    };
    let u = unity();
    let wv = w.value();
    let t = target.value() - before.value();
    let spread = spacing(reached);
    // The side of the middle, up to rounding.
    lemma_target_error(before, w, target, of(ONE));
    law_sum_error(before, w);
    assert(0 < t <= wv + spread);
    lemma_side_of_the_middle(before, w, target);
    let low = lower_edge(cs, k);
    let high = upper_edge(cs, k);
    law_middle_is_half_way(lower, mean);
    law_middle_is_half_way(mean, upper);
    law_finite_between(lower, low, mean);
    law_finite_between(mean, high, upper);
    let offset = product_of(away, side);
    let x = sum_of(mean, offset);
    let v = quantile_of(cs, ws, q);
    assert(v == clamped(x, low, high, mean));
    law_finite_between(lower, v, upper);
    let h = v.value() - mean.value();
    let g = side.value();
    let ws_ = wv * s;
    let gs = g * spread;
    assert(ws_ >= 0) by (nonlinear_arith)
        requires
            ws_ == wv * s,
            wv > 0,
            s >= 1,
    ;
    if g == 0 {
        law_zero_product(away, side);
        law_zero_is_neutral(mean, offset);
        assert(h == 0);
        assert(wv * h == 0 && g * (2 * t - wv) == 0) by (nonlinear_arith)
            requires
                h == 0,
                g == 0,
        ;
        assert(gs == 0) by (nonlinear_arith)
            requires
                gs == g * spread,
                g == 0,
        ;
    } else {
        lemma_target_error(before, w, target, side);
        if away.lt(of(0)) {
            lemma_gap_error_of_different(lower, mean, s);
        } else {
            lemma_gap_error_of_different(mean, upper, s);
        }
        if !offset.finite() {
            if distance(away.value()) <= u {
                law_product_with_a_fraction(away, side);
            }
            lemma_overflowing_offset(away, side, mean);
            law_infinities_are_outermost(x);
            law_infinities_are_outermost(high);
            assert(v == high);
            lemma_overflowed_place(wv, s, spread, g, t, h);
        } else {
            law_sum_respects_bounds(mean, offset, low);
            law_sum_respects_bounds(mean, offset, high);
            law_sum_respects_bounds(mean, offset, mean);
            lemma_offset_sign(away, side);
            law_finite_sum(mean, offset);
            if low.le(x) && x.le(high) {
                law_finite_between(low, x, high);
                law_sum_error(mean, offset);
                lemma_between_spacing(lower, v, upper, s);
            }
            lemma_interpolated_place(wv, s, spread, g, t, offset.value(), h);
        }
    }
    // The other side counts where rounding crossed the middle.
    let exact = if 2 * t < wv {
        low_gap.value()
    } else {
        high_gap.value()
    };
    let top = larger(low_gap.value(), high_gap.value());
    let far = 2 * t - wv;
    assert(0 <= gs <= top * spread) by (nonlinear_arith)
        requires
            gs == g * spread,
            0 <= g <= top,
            spread >= 1,
    ;
    if exact != g {
        assert(-(26 * spread) <= far <= 26 * spread);
        assert(-(26 * (top * spread)) <= exact * far <= 26 * (top * spread)) by (nonlinear_arith)
            requires
                0 <= exact <= top,
                -(26 * spread) <= far <= 26 * spread,
                spread >= 1,
        {
            let c = 26 * spread;
            assert(-(exact * c) <= exact * far <= exact * c);
            assert(exact * c <= top * c);
            assert(top * c == 26 * (top * spread));
        }
        // The offset is of the same size.
        assert(-(26 * (top * spread)) <= g * far <= 26 * (top * spread)) by (nonlinear_arith)
            requires
                0 <= g <= top,
                -(26 * spread) <= far <= 26 * spread,
                spread >= 1,
        {
            let c = 26 * spread;
            assert(-(g * c) <= g * far <= g * c);
            assert(g * c <= top * c);
            assert(top * c == 26 * (top * spread));
        }
    }
}

/// A quantile of nothing at all has the first mean for its value.
pub proof fn law_nothing_asked_for_is_the_first_mean(
    cs: Seq<Centroid>,
    ws: Seq<Binary64>,
    q: Binary64,
)
    requires
        weighty(ws),
        ws.len() == cs.len(),
        cs.len() > 0,
        in_place(cs, 0),
        cs[0].mean.finite(),
        total_of(ws).finite(),
        of(0).lt(q),
        q.lt(of(ONE)),
        product_of(q, total_of(ws)).value() == 0,
    ensures
        quantile_of(cs, ws, q).same(cs[0].mean),
{
    lemma_constants();
    let n = cs.len() as int;
    let all = total_of(ws);
    let target = product_of(q, all);
    lemma_target(ws, q);
    assert(ws.take(n) == ws);
    law_running_total_grows(ws, 0, 1);
    law_running_total_grows(ws, 1, n);
    lemma_total_step(ws, 0);
    assert(ws.take(0).len() == 0);
    let w = ws[0];
    assert(w.nonnegative());
    let reached = total_of(ws.take(1));
    law_finite_between(of(0), reached, all);
    law_sum_of_nonnegative(of(0), w);
    law_finite_between(of(0), w, reached);
    assert(reaches_first(ws, target, 0));
    lemma_reaches_first(ws, target, 0);
    let mean = cs[0].mean;
    lemma_cell(cs, ws, target, 0);
    let d = difference_of(target, of(0));
    law_difference_is_a_number(target, of(0));
    law_difference_of_ordered(target, of(0));
    lemma_value_sign(w);
    lemma_value_sign(d);
    let fraction = quotient_of(d, w);
    let away = difference_of(fraction, of(HALF));
    if w.zero() {
        // Nothing over nothing is no number.
        reveal(quotient_of);
        law_nan_spreads(fraction, opposite(of(HALF)));
        law_nan_spreads(away, difference_of(mean_after(cs, 0), mean));
        law_nan_spreads(mean, product_of(away, difference_of(mean_after(cs, 0), mean)));
    } else {
        assert(d.value() * unity() <= 0 * w.value()) by (nonlinear_arith)
            requires
                d.value() == 0,
        ;
        law_quotient_respects_bound(d, w, of(0));
        law_quotient_of_nonnegative(d, w);
        law_finite_between(of(0), fraction, of(0));
        let minus_half = opposite(of(HALF));
        lemma_opposite(of(HALF));
        law_sum_respects_bounds(fraction, minus_half, minus_half);
        law_finite_between(minus_half, away, minus_half);
        law_difference_is_a_number(mean, mean);
        law_difference_of_ordered(mean, mean);
        law_zero_product(away, difference_of(mean, mean));
        law_zero_is_neutral(mean, product_of(away, difference_of(mean, mean)));
    }
}

/// A gap that is not zero, against the exact one.
proof fn lemma_gap_error_of_different(low: Binary64, high: Binary64, s: int)
    requires
        low.le(high),
        low.finite(),
        high.finite(),
        difference_of(high, low).finite(),
        difference_of(high, low).value() != 0,
        spacing(low) <= s,
        spacing(high) <= s,
    ensures
        difference_of(high, low).value() > 0,
        distance(difference_of(high, low).value() - (high.value() - low.value())) <= 3 * s,
{
    law_difference_of_ordered(high, low);
    lemma_value_sign(difference_of(high, low));
    assert(low.lt(high));
    lemma_gap_error(low, high, s);
}

/// The place of a value whose offset overflows: the end of the cell.
proof fn lemma_overflowed_place(w: int, s: int, spread: int, g: int, t: int, h: int)
    requires
        w > 0,
        s >= 1,
        spread >= 1,
        g > 0,
        w - spread <= t <= w + spread,
        distance(2 * h - g) <= 7 * s,
    ensures
        distance(2 * (w * h) - g * (2 * t - w)) <= 26 * (g * spread) + 9 * (w * s),
{
    let ws = w * s;
    let gs = g * spread;
    let wh = w * h;
    let gw = g * w;
    let e = t - w;
    assert(g * (2 * t - w) == gw + 2 * (g * e)) by (nonlinear_arith)
        requires
            gw == g * w,
            e == t - w,
    ;
    assert(-gs <= g * e <= gs) by (nonlinear_arith)
        requires
            -spread <= e <= spread,
            gs == g * spread,
            g > 0,
    ;
    assert(-(7 * ws) <= 2 * wh - gw <= 7 * ws) by (nonlinear_arith)
        requires
            -(7 * s) <= 2 * h - g <= 7 * s,
            wh == w * h,
            gw == g * w,
            ws == w * s,
            w > 0,
    ;
    assert(ws >= 0) by (nonlinear_arith)
        requires
            ws == w * s,
            w > 0,
            s >= 1,
    ;
    assert(gs >= 0) by (nonlinear_arith)
        requires
            gs == g * spread,
            g > 0,
            spread >= 1,
    ;
}

/// The side of the middle on which a target lies, up to rounding.
proof fn lemma_side_of_the_middle(before: Binary64, w: Binary64, target: Binary64)
    requires
        before.nonnegative(),
        w.nonnegative(),
        sum_of(before, w).finite(),
        before.lt(target),
        target.le(sum_of(before, w)),
    ensures
        ({
            let away = difference_of(quotient_of(difference_of(target, before), w), of(HALF));
            let far = 2 * (target.value() - before.value()) - w.value();
            let spread = spacing(sum_of(before, w));
            &&& away.lt(of(0)) ==> far <= 26 * spread
            &&& !away.lt(of(0)) ==> far >= -(26 * spread)
        }),
{
    lemma_constants();
    lemma_rounding_unit();
    lemma_target_error(before, w, target, of(ONE));
    let away = difference_of(quotient_of(difference_of(target, before), w), of(HALF));
    law_one_is_neutral(away);
    law_product_commutes(away, of(ONE));
    let o = product_of(away, of(ONE));
    lemma_value_sign(o);
    lemma_value_sign(away);
    law_finite_between(away, o, away);
    let u = unity();
    let wv = w.value();
    let far = 2 * (target.value() - before.value()) - wv;
    let spread = spacing(sum_of(before, w));
    lemma_spacing(sum_of(before, w));
    let a = away.value();
    let wa = wv * a;
    assert(a < 0 ==> wa <= 0) by (nonlinear_arith)
        requires
            wa == wv * a,
            wv > 0,
    ;
    assert(a >= 0 ==> wa >= 0) by (nonlinear_arith)
        requires
            wa == wv * a,
            wv > 0,
    ;
    let us = u * spread;
    assert(2 * wv <= 2 * us) by (nonlinear_arith)
        requires
            wv < 2 * BLOCK * spread,
            u == 2 * BLOCK * rounding_unit(),
            rounding_unit() >= 1,
            us == u * spread,
            spread >= 1,
            BLOCK > 0,
    ;
    let uf = u * far;
    assert(uf <= 26 * us ==> far <= 26 * spread) by (nonlinear_arith)
        requires
            uf == u * far,
            us == u * spread,
            u > 0,
    ;
    assert(uf >= -(26 * us) ==> far >= -(26 * spread)) by (nonlinear_arith)
        requires
            uf == u * far,
            us == u * spread,
            u > 0,
    ;
}

/// Half of one mean and half of the other, where that is a number from the first on and before the
/// second; the first mean otherwise.
pub open spec fn half_way(low: Binary64, high: Binary64) -> Binary64 {
    let sum = sum_of(quotient_of(low, of(TWO)), quotient_of(high, of(TWO)));
    if low.le(sum) && sum.lt(high) {
        sum
    } else {
        low
    }
}

/// `r` is `x` where that lies from `low` to `high`, the end that it lies past otherwise, the upper one
/// first, and `otherwise` where it lies past neither.
pub open spec fn kept_between(
    x: Binary64,
    low: Binary64,
    high: Binary64,
    otherwise: Binary64,
    r: Binary64,
) -> bool {
    let inside = low.le(x) && x.le(high);
    &&& inside ==> r == x
    &&& !inside && high.lt(x) ==> r == high
    &&& !inside && !high.lt(x) && x.lt(low) ==> r == low
    &&& !inside && !high.lt(x) && !x.lt(low) ==> r == otherwise
}

/// With weights of either sign and means in any order: the target less the total before the centroid
/// that is reached, over its weight, less a half, says how far the value lies past the mean, as a part
/// of the gap on that side. The value is kept half-way between the neighbouring means.
pub proof fn law_quantile_of_any_weights(
    cs: Seq<Centroid>,
    ws: Seq<Binary64>,
    q: Binary64,
    k: int,
)
    requires
        ws.len() == cs.len(),
        of(0).lt(q),
        q.lt(of(ONE)),
        reaches_first(ws, product_of(q, total_of(ws)), k),
    ensures
        ({
            let target = product_of(q, total_of(ws));
            let mean = cs[k].mean;
            let part = quotient_of(difference_of(target, total_of(ws.take(k))), ws[k]);
            let away = difference_of(part, of(HALF));
            let gap = if away.lt(of(0)) {
                difference_of(mean, mean_before(cs, k))
            } else {
                difference_of(mean_after(cs, k), mean)
            };
            kept_between(
                sum_of(mean, product_of(away, gap)),
                half_way(mean_before(cs, k), mean),
                half_way(mean, mean_after(cs, k)),
                mean,
                quantile_of(cs, ws, q),
            )
        }),
{
    lemma_constants();
    lemma_reaches_first(ws, product_of(q, total_of(ws)), k);
}

} // verus!
