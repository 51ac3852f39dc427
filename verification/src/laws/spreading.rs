//! What the share up to a value is: the weight of each centroid is spread evenly around its mean.

use vstd::prelude::*;

use crate::binary64::arithmetic::{
    difference_of, distance, product_of, quotient_of, sum_of, unity,
};
use crate::binary64::errors::{
    law_quotient_error, law_sum_error, lemma_spacing, lemma_spacing_order, rounding_unit, spacing,
};
use crate::binary64::laws::{
    law_finite_between, law_sum_of_nonnegative, law_zero_is_neutral, lemma_constants,
};
use crate::binary64::number::{lemma_value_sign, of, HALF};
use crate::binary64::Binary64;
use crate::cells::{middle_of, ordered};
use crate::digest::Centroid;
use crate::distribution::{cdf_of, cumulative_between, cumulative_of, lemma_reach_bounds, reach};
use crate::laws::adding_up::lemma_share_error;
use crate::laws::interpolation::{half_way, kept_between, law_middle_is_half_way};
use crate::laws::round_trip::{
    larger, lemma_before_mean_error, lemma_gap_error, lemma_past_mean_error,
};
use crate::laws::shares::law_cumulative_is_between_neighbours;
use crate::weights::{law_running_total_grows, lemma_total_step, total_of, weighty};

verus! {

/// `value` lies from the mean of centroid `k - 1` on and before that of centroid `k`, and no mean
/// before those is greater.
pub open spec fn lies_before(cs: Seq<Centroid>, value: Binary64, k: int) -> bool {
    &&& cs[k - 1].mean.le(value)
    &&& value.lt(cs[k].mean)
    &&& forall|j: int| 0 <= j < k ==> !value.lt((#[trigger] cs[j]).mean)
}

/// Among ordered means, those before the last one up to a value are not greater than the value.
pub proof fn law_ordered_means_come_one_after_another(
    cs: Seq<Centroid>,
    value: Binary64,
    k: int,
)
    requires
        ordered(cs),
        0 < k < cs.len(),
        cs[k - 1].mean.le(value),
        value.lt(cs[k].mean),
    ensures
        lies_before(cs, value, k),
{
    assert forall|j: int| 0 <= j < k implies !value.lt((#[trigger] cs[j]).mean) by {
        assert(cs[j].mean.le(cs[k - 1].mean));
    }
}

/// How many means come up to a value between two of them.
proof fn lemma_reach_before(cs: Seq<Centroid>, value: Binary64, k: int)
    requires
        0 < k < cs.len(),
        lies_before(cs, value, k),
    ensures
        reach(cs, value) == k,
{
    lemma_reach_bounds(cs, value, 0);
    let r = reach(cs, value);
    if r < k {
        assert(!value.lt(cs[r].mean));
    }
    if r > k {
        assert(!value.lt(cs[k].mean));
    }
}

/// The two halves of the way between two means meet in the middle. `c` is the weight up to the
/// value, `b` that before the lower centroid, `r` that up to it; `w` and `v` are the weights of the
/// two, `g` the rounded gap and `far` the exact one; `x` is the distance of the value from the lower
/// mean.
proof fn lemma_halves_meet(
    g: int,
    far: int,
    s: int,
    spread: int,
    b: int,
    r: int,
    w: int,
    v: int,
    x: int,
    c: int,
)
    requires
        g > 0,
        s >= 1,
        spread >= 1,
        w >= 0,
        v >= 0,
        distance(g - far) <= 3 * s,
        2 * distance(r - b - w) <= spread,
        distance(2 * x - far) <= 4 * s,
        ({
            ||| c == r
            ||| distance(2 * (g * (c - b)) - g * w - 2 * (w * x)) <= 24 * (g * spread) + 7 * (w * s)
            ||| distance(2 * (g * (c - r)) - g * v - 2 * (v * (x - far))) <= 24 * (g * spread) + 7
                * (v * s)
        }),
    ensures
        distance(2 * (g * (c - b)) - g * w - 2 * (w * x)) <= 32 * (g * spread) + 24 * ((w + v) * s),
        distance(2 * (g * (c - r)) - g * v - 2 * (v * (x - far))) <= 32 * (g * spread) + 24 * ((w
            + v) * s),
{
    let gs = g * spread;
    let ws = w * s;
    let vs = v * s;
    assert((w + v) * s == ws + vs) by (nonlinear_arith)
        requires
            ws == w * s,
            vs == v * s,
    ;
    assert(gs >= 0 && ws >= 0 && vs >= 0) by (nonlinear_arith)
        requires
            gs == g * spread,
            ws == w * s,
            vs == v * s,
            g > 0,
            spread >= 1,
            s >= 1,
            w >= 0,
            v >= 0,
    ;
    let gc = g * (c - r);
    let e = r - b - w;
    assert(g * (c - b) == gc + g * w + g * e) by (nonlinear_arith)
        requires
            gc == g * (c - r),
            e == r - b - w,
    ;
    let ge = g * e;
    assert(-gs <= 2 * ge <= gs) by (nonlinear_arith)
        requires
            ge == g * e,
            gs == g * spread,
            -spread <= 2 * e <= spread,
            g > 0,
    ;
    // Both halves against the middle.
    let p = g - 2 * x;
    assert(-(7 * s) <= p <= 7 * s);
    let wp = w * p;
    assert(-(7 * ws) <= wp <= 7 * ws) by (nonlinear_arith)
        requires
            wp == w * p,
            ws == w * s,
            -(7 * s) <= p <= 7 * s,
            w >= 0,
    ;
    assert(2 * (w * x) == g * w - wp) by (nonlinear_arith)
        requires
            wp == w * p,
            p == g - 2 * x,
    ;
    let q = g + 2 * (x - far);
    assert(-(7 * s) <= q <= 7 * s);
    let vq = v * q;
    assert(-(7 * vs) <= vq <= 7 * vs) by (nonlinear_arith)
        requires
            vq == v * q,
            vs == v * s,
            -(7 * s) <= q <= 7 * s,
            v >= 0,
    ;
    assert(g * v + 2 * (v * (x - far)) == vq) by (nonlinear_arith)
        requires
            vq == v * q,
            q == g + 2 * (x - far),
    ;
    if c == r {
        assert(gc == 0) by (nonlinear_arith)
            requires
                gc == g * (c - r),
                c == r,
        ;
    }
}

/// The weight up to a value between the means of two neighbouring centroids: everything before the
/// first of them, half of its own weight, and from there on, evenly up to the middle, the other
/// half; from the middle on, evenly up to the mean of the second, half of the weight of that one.
/// All up to rounding.
pub proof fn law_weight_up_to_a_value_is_spread_evenly(
    cs: Seq<Centroid>,
    ws: Seq<Binary64>,
    value: Binary64,
    k: int,
)
    requires
        weighty(ws),
        ws.len() == cs.len(),
        total_of(ws).finite(),
        0 < k < cs.len(),
        lies_before(cs, value, k),
        cs[k - 1].mean.finite(),
        cs[k].mean.finite(),
        difference_of(cs[k].mean, cs[k - 1].mean).finite(),
    ensures
        ({
            let low = cs[k - 1].mean.value();
            let high = cs[k].mean.value();
            let x = value.value();
            let g = difference_of(cs[k].mean, cs[k - 1].mean).value();
            let w = ws[k - 1].value();
            let v = ws[k].value();
            let c = cumulative_of(cs, ws, value).value();
            let before = total_of(ws.take(k - 1)).value();
            let reached = total_of(ws.take(k)).value();
            let s = larger(spacing(cs[k - 1].mean), spacing(cs[k].mean));
            let bound = 32 * (g * spacing(total_of(ws.take(k + 1)))) + 24 * ((w + v) * s);
            &&& g > 0
            &&& 2 * x <= low + high ==> distance(
                2 * (g * (c - before)) - g * w - 2 * (w * (x - low)),
            ) <= bound
            &&& 2 * x >= low + high ==> distance(
                2 * (g * (c - reached)) - g * v - 2 * (v * (x - high)),
            ) <= bound
        }),
{
    lemma_constants();
    let n = cs.len() as int;
    let low = cs[k - 1].mean;
    let high = cs[k].mean;
    let s = larger(spacing(low), spacing(high));
    assert(low.lt(high));
    lemma_spacing(low);
    lemma_gap_error(low, high, s);
    law_middle_is_half_way(low, high);
    lemma_reach_before(cs, value, k);
    let c = cumulative_of(cs, ws, value);
    assert(c == cumulative_between(cs, ws, value, k));
    assert(ws.take(n) == ws);
    law_running_total_grows(ws, k - 1, k);
    law_running_total_grows(ws, k, k + 1);
    law_running_total_grows(ws, k + 1, n);
    lemma_total_step(ws, k - 1);
    lemma_total_step(ws, k);
    let before = total_of(ws.take(k - 1));
    let reached = total_of(ws.take(k));
    let after = total_of(ws.take(k + 1));
    let w = ws[k - 1];
    let v = ws[k];
    assert(w.nonnegative() && v.nonnegative());
    law_finite_between(of(0), after, total_of(ws));
    law_finite_between(of(0), reached, after);
    law_finite_between(of(0), before, reached);
    law_sum_of_nonnegative(before, w);
    law_sum_of_nonnegative(reached, v);
    law_finite_between(of(0), w, reached);
    law_finite_between(of(0), v, after);
    law_sum_error(before, w);
    lemma_spacing_order(reached, after);
    lemma_spacing(reached);
    lemma_spacing(after);
    law_finite_between(low, value, high);
    let g = difference_of(high, low).value();
    let gr = g * spacing(reached);
    let ga = g * spacing(after);
    assert(0 <= gr <= ga) by (nonlinear_arith)
        requires
            gr == g * spacing(reached),
            ga == g * spacing(after),
            1 <= spacing(reached) <= spacing(after),
            g > 0,
    ;
    let ws_ = w.value() * s;
    let vs = v.value() * s;
    assert(ws_ >= 0 && vs >= 0) by (nonlinear_arith)
        requires
            ws_ == w.value() * s,
            vs == v.value() * s,
            w.value() >= 0,
            v.value() >= 0,
            s >= 1,
    ;
    assert((w.value() + v.value()) * s == ws_ + vs) by (nonlinear_arith)
        requires
            ws_ == w.value() * s,
            vs == v.value() * s,
    ;
    let mid = middle_of(low, high);
    let x = value.value() - low.value();
    let far = high.value() - low.value();
    if value.lt(mid) {
        if w.value() > 0 {
            lemma_past_mean_error(before, w, low, high, value, s);
        } else {
            lemma_value_sign(w);
            law_zero_is_neutral(before, w);
            lemma_part_of_nothing(before, w, c, g, x);
        }
    } else if mid.lt(value) {
        if v.value() > 0 {
            lemma_before_mean_error(reached, v, low, high, value, s);
        } else {
            lemma_value_sign(v);
            law_zero_is_neutral(reached, v);
            lemma_part_of_nothing(reached, v, c, g, x - far);
        }
    }
    let near_middle = -(4 * s) <= 2 * x - far <= 4 * s;
    if near_middle {
        lemma_halves_meet(
            g,
            far,
            s,
            spacing(after),
            before.value(),
            reached.value(),
            w.value(),
            v.value(),
            x,
            c.value(),
        );
    }
}

/// A part of a weight of nothing is nothing.
proof fn lemma_part_of_nothing(before: Binary64, w: Binary64, c: Binary64, g: int, x: int)
    requires
        before.finite(),
        w.value() == 0,
        w.finite(),
        c.value() == before.value(),
        g > 0,
    ensures
        2 * (g * (c.value() - before.value())) - g * w.value() - 2 * (w.value() * x) == 0,
{
    assert(g * 0 == 0 && 0 * x == 0) by (nonlinear_arith);
}

/// The share of the weight up to a value is the weight up to it over the weight of all, up to two to
/// the power of minus 53; where there is no weight, it is zero.
pub proof fn law_share_is_the_part_of_the_whole(
    cs: Seq<Centroid>,
    ws: Seq<Binary64>,
    value: Binary64,
)
    requires
        weighty(ws),
        ws.len() == cs.len(),
        total_of(ws).finite(),
    ensures
        total_of(ws).value() == 0 ==> cdf_of(cs, ws, value) == of(0),
        total_of(ws).value() != 0 ==> {
            &&& cdf_of(cs, ws, value).finite()
            &&& distance(
                cdf_of(cs, ws, value).value() * total_of(ws).value() - cumulative_of(
                    cs,
                    ws,
                    value,
                ).value() * unity(),
            ) <= rounding_unit() * total_of(ws).value()
        },
{
    lemma_constants();
    let n = ws.len() as int;
    assert(ws.take(n) == ws);
    law_running_total_grows(ws, n, n);
    law_cumulative_is_between_neighbours(cs, ws, value);
    if total_of(ws).value() != 0 {
        lemma_share_error(cumulative_of(cs, ws, value), total_of(ws));
    }
}

/// Everything counts up to a value that no mean is greater than, and up to one that is no number.
pub proof fn law_everything_counts_up_to_what_no_mean_exceeds(
    cs: Seq<Centroid>,
    ws: Seq<Binary64>,
    value: Binary64,
)
    requires
        ws.len() == cs.len(),
        cs.len() > 0,
        value.nan() || forall|j: int| 0 <= j < cs.len() ==> !value.lt((#[trigger] cs[j]).mean),
    ensures
        cumulative_of(cs, ws, value) == total_of(ws),
{
    lemma_reach_bounds(cs, value, 0);
    let k = reach(cs, value);
    if k < cs.len() {
        assert(value.lt(cs[k].mean));
    }
}

/// `x` lies between `a` and `b`, whichever of them is the smaller one.
pub open spec fn between(x: Binary64, a: Binary64, b: Binary64) -> bool {
    a.le(x) && x.le(b) || b.le(x) && x.le(a)
}

/// With weights of either sign, the weight up to a value between two means lies between the totals
/// before and after the centroid in whose half of the way it is.
pub proof fn law_weight_up_to_a_value_lies_between_totals(
    cs: Seq<Centroid>,
    ws: Seq<Binary64>,
    value: Binary64,
    k: int,
)
    requires
        ws.len() == cs.len(),
        0 < k < cs.len(),
        lies_before(cs, value, k),
        cs[k - 1].mean.finite(),
        cs[k].mean.finite(),
        !total_of(ws.take(k - 1)).nan(),
        !total_of(ws.take(k)).nan(),
        !total_of(ws.take(k + 1)).nan(),
    ensures
        ({
            let low = cs[k - 1].mean;
            let high = cs[k].mean;
            let s = larger(spacing(low), spacing(high));
            let c = cumulative_of(cs, ws, value);
            let first = between(c, total_of(ws.take(k - 1)), total_of(ws.take(k)));
            let second = between(c, total_of(ws.take(k)), total_of(ws.take(k + 1)));
            &&& first || second
            &&& 2 * value.value() < low.value() + high.value() - 4 * s ==> first
            &&& 2 * value.value() > low.value() + high.value() + 4 * s ==> second
        }),
{
    let low = cs[k - 1].mean;
    let high = cs[k].mean;
    lemma_total_step(ws, k - 1);
    lemma_total_step(ws, k);
    lemma_reach_before(cs, value, k);
    assert(low.lt(high));
    law_middle_is_half_way(low, high);
    let before = total_of(ws.take(k - 1));
    let reached = total_of(ws.take(k));
    let after = total_of(ws.take(k + 1));
    assert(before.le(before) && reached.le(reached) && after.le(after));
    assert(before.le(reached) || reached.le(before));
    assert(reached.le(after) || after.le(reached));
}

/// Nothing counts up to a value before the first mean, whatever the weights.
pub proof fn law_nothing_counts_before_the_first_mean(
    cs: Seq<Centroid>,
    ws: Seq<Binary64>,
    value: Binary64,
)
    requires
        cs.len() > 0,
        value.lt(cs[0].mean),
    ensures
        cumulative_of(cs, ws, value) == of(0),
{
}

/// With weights of either sign, the share up to a value times the total weight is the weight up to
/// the value, up to rounding; a total of zero leaves no share.
pub proof fn law_share_of_any_weights(cs: Seq<Centroid>, ws: Seq<Binary64>, value: Binary64)
    ensures
        total_of(ws).same(of(0)) ==> cdf_of(cs, ws, value) == of(0),
        !total_of(ws).same(of(0)) ==> cdf_of(cs, ws, value) == quotient_of(
            cumulative_of(cs, ws, value),
            total_of(ws),
        ),
        ({
            let c = cumulative_of(cs, ws, value);
            let all = total_of(ws);
            let share = cdf_of(cs, ws, value);
            all.finite() && all.value() != 0 && c.finite() && quotient_of(c, all).finite() ==> {
                &&& share.finite()
                &&& 2 * distance(share.value() * all.value() - c.value() * unity()) <= spacing(share)
                    * distance(all.value())
            }
        }),
{
    lemma_constants();
    let c = cumulative_of(cs, ws, value);
    let all = total_of(ws);
    if all.finite() && all.value() != 0 && c.finite() && quotient_of(c, all).finite() {
        law_quotient_error(c, all);
    }
}

/// With weights of either sign and means in any order: before the middle between two means, the total
/// before the first of them and the part of its weight that lies up to the value, which is a half and
/// as much as the value lies past the mean, in gaps; after the middle, the total up to the first of them
/// and the part of the weight of the second, which is a half less as much as the value lies before the
/// mean. Each is kept between the totals before and after the centroid.
pub proof fn law_weight_up_to_a_value_of_any_weights(
    cs: Seq<Centroid>,
    ws: Seq<Binary64>,
    value: Binary64,
    k: int,
)
    requires
        ws.len() == cs.len(),
        0 < k < cs.len(),
        lies_before(cs, value, k),
    ensures
        ({
            let low = cs[k - 1].mean;
            let high = cs[k].mean;
            let gap = difference_of(high, low);
            let edge = half_way(low, high);
            let c = cumulative_of(cs, ws, value);
            let before = total_of(ws.take(k - 1));
            let reached = total_of(ws.take(k));
            let after = total_of(ws.take(k + 1));
            let first = sum_of(of(HALF), quotient_of(difference_of(value, low), gap));
            let second = difference_of(of(HALF), quotient_of(difference_of(high, value), gap));
            &&& value.lt(edge) ==> kept_between(
                sum_of(before, product_of(ws[k - 1], first)),
                before,
                reached,
                reached,
                c,
            )
            &&& edge.lt(value) ==> kept_between(
                sum_of(reached, product_of(ws[k], second)),
                reached,
                after,
                reached,
                c,
            )
            &&& edge.same(value) ==> c == reached
        }),
{
    lemma_reach_before(cs, value, k);
    lemma_total_step(ws, k - 1);
    lemma_total_step(ws, k);
}

} // verus!
