//! Values at a quantile: their range, their order, and how they relate to shares.

use vstd::prelude::*;

use crate::binary64::arithmetic::{difference_of, product_of, quotient_of, sum_of};
use crate::binary64::laws::{
    law_difference_is_a_number, law_difference_of_ordered, law_finite_between, law_finite_product,
    law_finite_sum, law_finite_terms, law_infinities_are_outermost, law_nan_spreads,
    law_one_is_neutral, law_product_keeps_order, law_product_of_nonnegative,
    law_quotient_keeps_order, law_quotient_of_nonnegative, law_sum_keeps_order,
    law_sum_of_nonnegative, law_zero_is_neutral, law_zero_product, lemma_constants,
};
use crate::binary64::number::{lemma_opposite, lemma_value_sign, of, opposite, HALF, ONE};
use crate::binary64::Binary64;
use crate::cells::{
    clamped, law_cell_holds_its_mean, lemma_clamped, lemma_middle, lower_edge, lower_mean,
    middle_of, ordered, upper_edge, upper_mean,
};
use crate::digest::Centroid;
use crate::distribution::{cumulative_between, cumulative_of, lemma_reach_bounds, reach};
use crate::laws::shares::law_cumulative_is_between_neighbours;
use crate::quantile::{crossing, interpolated, lemma_crossing, quantile_of};
use crate::weights::{law_running_total_grows, lemma_total_step, total_of, weighty};

verus! {

/// A value inside a centroid lies in the cell of the centroid.
pub proof fn law_interpolation_stays_in_the_cell(
    cs: Seq<Centroid>,
    ws: Seq<Binary64>,
    target: Binary64,
    k: int,
)
    requires
        ordered(cs),
        0 <= k < cs.len(),
    ensures
        lower_edge(cs, k).le(interpolated(cs, ws, target, k)),
        interpolated(cs, ws, target, k).le(upper_edge(cs, k)),
{
    law_cell_holds_its_mean(cs, k);
}

/// The value at any quantile lies between the first and the last mean.
pub proof fn law_quantile_is_between_the_outer_means(
    cs: Seq<Centroid>,
    ws: Seq<Binary64>,
    q: Binary64,
)
    requires
        ordered(cs),
        ws.len() == cs.len(),
        cs.len() > 0,
    ensures
        cs[0].mean.le(quantile_of(cs, ws, q)),
        quantile_of(cs, ws, q).le(cs.last().mean),
{
    let last = cs.len() - 1;
    assert(cs[0].mean.le(cs[last].mean));
    assert(cs[0].mean.le(cs[0].mean));
    assert(cs[last].mean.le(cs[last].mean));
    let target = product_of(q, total_of(ws));
    let k = crossing(ws, target, 0);
    lemma_crossing(ws, target, 0);
    if k < cs.len() {
        law_interpolation_stays_in_the_cell(cs, ws, target, k);
        law_cell_holds_its_mean(cs, k);
        if k > 0 {
            assert(cs[0].mean.le(cs[k - 1].mean));
        }
        assert(cs[k].mean.le(cs[last].mean));
        if k < last {
            assert(cs[k + 1].mean.le(cs[last].mean));
        }
        assert(cs[0].mean.le(cs[k].mean));
    }
}

/// The value at a distance from the mean of a centroid, in units of the gap on that side.
spec fn placed(
    mean: Binary64,
    away: Binary64,
    gap: Binary64,
    low: Binary64,
    high: Binary64,
) -> Binary64 {
    clamped(sum_of(mean, product_of(away, gap)), low, high, mean)
}

/// A gap that is infinite, or makes no number, or is finite.
proof fn lemma_gap(a: Binary64, b: Binary64)
    requires
        a.le(b),
    ensures
        ({
            let gap = difference_of(b, a);
            gap.nan() || (gap.nonnegative() && (gap.infinite() || (a.finite() && b.finite())))
        }),
{
    let gap = difference_of(b, a);
    lemma_opposite(a);
    if !gap.nan() {
        law_difference_of_ordered(b, a);
        if gap.finite() {
            law_finite_terms(b, opposite(a));
        }
    }
}

/// A NaN or an infinity times a gap.
proof fn lemma_infinite_offset(away: Binary64, gap: Binary64)
    requires
        gap.infinite(),
        !gap.negative(),
        !away.nan(),
    ensures
        away.zero() ==> product_of(away, gap).nan(),
        !away.zero() ==> product_of(away, gap).infinite() && product_of(away, gap).negative()
            == away.negative(),
        forall|other: Binary64|
            !other.nan() && !other.zero() && !away.zero() && other.negative() == away.negative()
                ==> #[trigger] product_of(other, gap) == product_of(away, gap),
{
    reveal(product_of);
}

/// Before the mean, a value does not lie past the mean, and grows with the distance.
proof fn lemma_before_mean(
    mean: Binary64,
    lower: Binary64,
    low: Binary64,
    high: Binary64,
    a: Binary64,
    b: Binary64,
)
    requires
        lower.le(mean),
        low.le(mean),
        mean.le(high),
        a.le(b),
        b.lt(of(0)),
        a.finite(),
        b.finite(),
    ensures
        ({
            let gap = difference_of(mean, lower);
            &&& placed(mean, a, gap, low, high).le(placed(mean, b, gap, low, high))
            &&& placed(mean, b, gap, low, high).le(mean)
        }),
{
    lemma_constants();
    let gap = difference_of(mean, lower);
    lemma_gap(lower, mean);
    lemma_value_sign(a);
    lemma_value_sign(b);
    lemma_value_sign(gap);
    lemma_clamped(sum_of(mean, product_of(a, gap)), low, high, mean);
    lemma_clamped(sum_of(mean, product_of(b, gap)), low, high, mean);
    if gap.nan() {
        law_nan_spreads(a, gap);
        law_nan_spreads(b, gap);
        law_nan_spreads(mean, product_of(a, gap));
        law_nan_spreads(mean, product_of(b, gap));
    } else if gap.infinite() {
        lemma_infinite_offset(a, gap);
        lemma_infinite_offset(b, gap);
        let x = sum_of(mean, product_of(b, gap));
        if !x.nan() {
            let z = of(0);
            law_zero_is_neutral(mean, z);
            law_infinities_are_outermost(product_of(b, gap));
            law_infinities_are_outermost(z);
            law_sum_keeps_order(mean, product_of(b, gap), mean, z);
        }
    } else {
        law_finite_product(a, gap);
        law_finite_product(b, gap);
        law_product_keeps_order(a, b, gap);
        law_finite_sum(mean, product_of(a, gap));
        law_finite_sum(mean, product_of(b, gap));
        law_sum_keeps_order(mean, product_of(a, gap), mean, product_of(b, gap));
        law_zero_product(of(0), gap);
        lemma_value_sign(product_of(of(0), gap));
        law_product_keeps_order(b, of(0), gap);
        law_zero_is_neutral(mean, product_of(of(0), gap));
        law_sum_keeps_order(mean, product_of(b, gap), mean, product_of(of(0), gap));
    }
}

/// A value from the mean on does not lie before the mean.
proof fn lemma_from_mean(
    mean: Binary64,
    upper: Binary64,
    low: Binary64,
    high: Binary64,
    a: Binary64,
)
    requires
        mean.le(upper),
        low.le(mean),
        mean.le(high),
        a.nonnegative(),
    ensures
        mean.le(placed(mean, a, difference_of(upper, mean), low, high)),
{
    lemma_constants();
    let gap = difference_of(upper, mean);
    lemma_gap(mean, upper);
    let offset = product_of(a, gap);
    let x = sum_of(mean, offset);
    lemma_value_sign(a);
    lemma_value_sign(gap);
    if offset.nan() {
        law_nan_spreads(mean, offset);
    } else if gap.nan() {
        law_nan_spreads(a, gap);
    } else if !x.nan() {
        lemma_nonnegative_product(a, gap);
        law_zero_is_neutral(mean, of(0));
        law_sum_keeps_order(mean, of(0), mean, offset);
    }
}

/// A product of numbers that are not negative is not negative, if it is a number.
proof fn lemma_nonnegative_product(a: Binary64, b: Binary64)
    requires
        a.nonnegative(),
        b.nonnegative(),
        !product_of(a, b).nan(),
    ensures
        product_of(a, b).nonnegative(),
{
    reveal(product_of);
    law_product_of_nonnegative(a, b);
}

/// From the mean on, a value grows with the distance.
proof fn lemma_after_mean(
    mean: Binary64,
    upper: Binary64,
    low: Binary64,
    high: Binary64,
    a: Binary64,
    b: Binary64,
)
    requires
        mean.le(upper),
        low.le(mean),
        mean.le(high),
        a.nonnegative(),
        a.le(b),
    ensures
        ({
            let gap = difference_of(upper, mean);
            placed(mean, a, gap, low, high).le(placed(mean, b, gap, low, high))
        }),
{
    lemma_constants();
    let gap = difference_of(upper, mean);
    lemma_gap(mean, upper);
    lemma_from_mean(mean, upper, low, high, b);
    lemma_value_sign(a);
    lemma_value_sign(b);
    lemma_value_sign(gap);
    let p = product_of(a, gap);
    let q = product_of(b, gap);
    if gap.nan() {
        law_nan_spreads(a, gap);
        law_nan_spreads(mean, p);
    } else if gap.infinite() {
        lemma_infinite_offset(a, gap);
        lemma_infinite_offset(b, gap);
        if a.zero() {
            law_nan_spreads(mean, p);
        }
    } else if p.nan() {
        law_nan_spreads(mean, p);
    } else if q.nan() {
        lemma_infinite_times_zero(b, gap);
        lemma_zero_times(a, gap);
        law_zero_is_neutral(mean, p);
    } else {
        law_product_keeps_order(a, b, gap);
        law_finite_sum(mean, p);
        law_finite_sum(mean, q);
        law_sum_keeps_order(mean, p, mean, q);
    }
}

/// A product of numbers with a finite one that is not a number has zero as a factor.
proof fn lemma_infinite_times_zero(b: Binary64, gap: Binary64)
    requires
        !b.nan(),
        gap.finite(),
        product_of(b, gap).nan(),
    ensures
        gap.zero(),
{
    if b.finite() {
        law_finite_product(b, gap);
    } else {
        reveal(product_of);
    }
}

/// A product with zero that is a number is zero.
proof fn lemma_zero_times(a: Binary64, gap: Binary64)
    requires
        gap.zero(),
        !product_of(a, gap).nan(),
    ensures
        product_of(a, gap).zero(),
{
    if a.finite() {
        law_zero_product(a, gap);
    } else {
        reveal(product_of);
    }
}

/// Inside one centroid, a larger target gives a value that is not smaller.
proof fn lemma_cell_order(
    cs: Seq<Centroid>,
    ws: Seq<Binary64>,
    a: Binary64,
    b: Binary64,
    k: int,
)
    requires
        ordered(cs),
        weighty(ws),
        ws.len() == cs.len(),
        0 <= k < cs.len(),
        total_of(ws.take(k)).le(a),
        a.le(b),
        b.le(total_of(ws.take(k + 1))),
        total_of(ws.take(k + 1)).finite(),
    ensures
        interpolated(cs, ws, a, k).le(interpolated(cs, ws, b, k)),
{
    lemma_constants();
    law_cell_holds_its_mean(cs, k);
    law_running_total_grows(ws, k, k + 1);
    lemma_total_step(ws, k);
    assert(ws[k].nonnegative());
    let before = total_of(ws.take(k));
    let reached = total_of(ws.take(k + 1));
    let w = ws[k];
    law_sum_of_nonnegative(before, w);
    law_finite_between(of(0), before, reached);
    law_finite_between(of(0), w, reached);
    law_finite_between(of(0), a, reached);
    law_finite_between(of(0), b, reached);
    let da = difference_of(a, before);
    let db = difference_of(b, before);
    law_difference_is_a_number(a, before);
    law_difference_is_a_number(b, before);
    law_difference_of_ordered(a, before);
    law_difference_of_ordered(b, before);
    law_sum_keeps_order(a, opposite(before), b, opposite(before));
    let fa = quotient_of(da, w);
    let fb = quotient_of(db, w);
    let xa = difference_of(fa, of(HALF));
    let xb = difference_of(fb, of(HALF));
    lemma_value_sign(w);
    let mean = cs[k].mean;
    if w.zero() {
        law_zero_is_neutral(before, w);
        lemma_zero_over_zero(da, w);
        lemma_zero_over_zero(db, w);
        law_nan_spreads(fa, of(HALF));
        law_nan_spreads(fb, of(HALF));
        let gap = difference_of(upper_mean(cs, k), mean);
        law_nan_spreads(xa, gap);
        law_nan_spreads(xb, gap);
        law_nan_spreads(mean, product_of(xa, gap));
        law_nan_spreads(mean, product_of(xb, gap));
    } else {
        law_quotient_of_nonnegative(da, w);
        law_quotient_of_nonnegative(db, w);
        law_quotient_keeps_order(da, db, w);
        law_difference_is_a_number(fa, of(HALF));
        law_difference_is_a_number(fb, of(HALF));
        let minus_half = opposite(of(HALF));
        lemma_opposite(of(HALF));
        law_sum_keeps_order(fa, minus_half, fb, minus_half);
        law_zero_is_neutral(minus_half, of(0));
        law_sum_keeps_order(of(0), minus_half, fa, minus_half);
        let low = lower_edge(cs, k);
        let high = upper_edge(cs, k);
        let lower = lower_mean(cs, k);
        let upper = upper_mean(cs, k);
        assert(lower.le(mean) && mean.le(upper));
        if xa.lt(of(0)) {
            law_finite_between(minus_half, xa, of(0));
            lemma_before_mean(mean, lower, low, high, xa, xa);
            if xb.lt(of(0)) {
                law_finite_between(minus_half, xb, of(0));
                lemma_before_mean(mean, lower, low, high, xa, xb);
            } else {
                lemma_from_mean(mean, upper, low, high, xb);
            }
        } else {
            lemma_after_mean(mean, upper, low, high, xa, xb);
        }
    }
}

/// Zero divided by zero is not a number.
proof fn lemma_zero_over_zero(a: Binary64, b: Binary64)
    requires
        a.zero(),
        b.zero(),
    ensures
        quotient_of(a, b).nan(),
{
    reveal(quotient_of);
}

/// The target of a quantile between zero and one lies between nothing and the whole weight.
pub(crate) proof fn lemma_target(ws: Seq<Binary64>, q: Binary64)
    requires
        weighty(ws),
        total_of(ws).finite(),
        of(0).lt(q),
        q.lt(of(ONE)),
    ensures
        product_of(q, total_of(ws)).nonnegative(),
        product_of(q, total_of(ws)).le(total_of(ws)),
        q.finite(),
{
    lemma_constants();
    let n = ws.len() as int;
    assert(ws.take(n) == ws);
    law_running_total_grows(ws, n, n);
    let all = total_of(ws);
    law_finite_between(of(0), q, of(ONE));
    law_finite_product(q, all);
    law_product_of_nonnegative(q, all);
    law_one_is_neutral(all);
    law_product_keeps_order(q, of(ONE), all);
}

/// The running total up to a crossing has not passed the target.
proof fn lemma_before_crossing(ws: Seq<Binary64>, target: Binary64)
    requires
        weighty(ws),
        target.nonnegative(),
    ensures
        ({
            let k = crossing(ws, target, 0);
            &&& 0 <= k <= ws.len()
            &&& total_of(ws.take(k)).le(target)
            &&& k < ws.len() ==> target.le(total_of(ws.take(k + 1)))
        }),
{
    lemma_constants();
    lemma_crossing(ws, target, 0);
    let k = crossing(ws, target, 0);
    law_running_total_grows(ws, k, k);
    if k > 0 {
        let reached = total_of(ws.take(k - 1 + 1));
        assert(!target.le(reached));
    } else {
        assert(ws.take(0).len() == 0);
    }
}

/// A larger quantile has a value that is not smaller.
pub proof fn law_quantile_keeps_order(
    cs: Seq<Centroid>,
    ws: Seq<Binary64>,
    p: Binary64,
    q: Binary64,
)
    requires
        ordered(cs),
        weighty(ws),
        ws.len() == cs.len(),
        total_of(ws).finite(),
        p.le(q),
    ensures
        quantile_of(cs, ws, p).le(quantile_of(cs, ws, q)),
{
    lemma_constants();
    let n = cs.len() as int;
    if n > 0 {
        law_quantile_is_between_the_outer_means(cs, ws, p);
        law_quantile_is_between_the_outer_means(cs, ws, q);
        if !p.le(of(0)) && !of(ONE).le(q) {
            let all = total_of(ws);
            assert(ws.take(n) == ws);
            law_running_total_grows(ws, n, n);
            lemma_target(ws, p);
            lemma_target(ws, q);
            let a = product_of(p, all);
            let b = product_of(q, all);
            law_product_keeps_order(p, q, all);
            lemma_before_crossing(ws, a);
            lemma_before_crossing(ws, b);
            lemma_crossing(ws, a, 0);
            let i = crossing(ws, a, 0);
            let j = crossing(ws, b, 0);
            if j < i {
                let reached = total_of(ws.take(j + 1));
                assert(!a.le(reached));
                assert(false);
            }
            if j < n {
                law_interpolation_stays_in_the_cell(cs, ws, a, i);
                law_interpolation_stays_in_the_cell(cs, ws, b, j);
                if i == j {
                    law_running_total_grows(ws, j + 1, n);
                    law_finite_between(of(0), total_of(ws.take(j + 1)), all);
                    lemma_cell_order(cs, ws, a, b, i);
                } else {
                    law_cell_holds_its_mean(cs, i);
                    law_cell_holds_its_mean(cs, j);
                    if i + 1 < j {
                        assert(cs[i + 1].mean.le(cs[j - 1].mean));
                    }
                }
            }
        }
    }
}

/// The means are numbers and go up.
pub open spec fn increasing(cs: Seq<Centroid>) -> bool {
    &&& ordered(cs)
    &&& forall|i: int, j: int|
        0 <= i < j < cs.len() ==> (#[trigger] cs[i]).mean.lt((#[trigger] cs[j]).mean)
}

/// The weight up to a value in the cell of a centroid lies between the weights before and after
/// the centroid.
pub proof fn law_cell_holds_its_weight(
    cs: Seq<Centroid>,
    ws: Seq<Binary64>,
    k: int,
    value: Binary64,
)
    requires
        increasing(cs),
        weighty(ws),
        ws.len() == cs.len(),
        0 <= k < cs.len(),
        lower_edge(cs, k).le(value),
        value.le(upper_edge(cs, k)),
    ensures
        total_of(ws.take(k)).le(cumulative_of(cs, ws, value)),
        cumulative_of(cs, ws, value).le(total_of(ws.take(k + 1))),
{
    lemma_constants();
    let n = cs.len() as int;
    assert(ws.take(n) == ws);
    law_cell_holds_its_mean(cs, k);
    law_cumulative_is_between_neighbours(cs, ws, value);
    lemma_reach_bounds(cs, value, 0);
    law_running_total_grows(ws, k, k + 1);
    law_running_total_grows(ws, k + 1, k + 1);
    lemma_total_step(ws, k);
    let r = reach(cs, value);
    if value.lt(cs[k].mean) {
        if k == 0 {
            assert(false);
        }
        assert(cs[k - 1].mean.lt(cs[k].mean));
        if r > k {
            assert(!value.lt(cs[k].mean));
        }
        if r < k {
            assert(cs[r].mean.le(cs[k - 1].mean));
        }
        assert(r == k);
        lemma_total_step(ws, k - 1);
        lemma_part_bounds(cs, ws, value, k);
    } else if k == n - 1 {
        if r < n {
            assert(cs[r].mean.le(cs[n - 1].mean));
        }
    } else {
        assert(cs[k].mean.lt(cs[k + 1].mean));
        lemma_middle(cs[k].mean, cs[k + 1].mean);
        if r > k + 1 {
            assert(!value.lt(cs[k + 1].mean));
        }
        if r < k + 1 {
            assert(cs[r].mean.le(cs[k].mean));
        }
        assert(r == k + 1);
        lemma_part_bounds(cs, ws, value, k + 1);
    }
}

/// On each side of the middle of two means, the weight up to a value stays within the centroid
/// on that side.
proof fn lemma_part_bounds(cs: Seq<Centroid>, ws: Seq<Binary64>, value: Binary64, k: int)
    requires
        weighty(ws),
        ws.len() == cs.len(),
        0 < k < cs.len(),
    ensures
        ({
            let edge = middle_of(cs[k - 1].mean, cs[k].mean);
            let r = cumulative_between(cs, ws, value, k);
            &&& value.le(edge) ==> total_of(ws.take(k - 1)).le(r) && r.le(total_of(ws.take(k)))
            &&& edge.le(value) ==> total_of(ws.take(k)).le(r) && r.le(total_of(ws.take(k + 1)))
        }),
{
    law_running_total_grows(ws, k - 1, k);
    law_running_total_grows(ws, k, k + 1);
    law_running_total_grows(ws, k + 1, k + 1);
    lemma_total_step(ws, k - 1);
    lemma_total_step(ws, k);
    let before = total_of(ws.take(k - 1));
    let reached = total_of(ws.take(k));
    let after = total_of(ws.take(k + 1));
    let low = cs[k - 1].mean;
    let high = cs[k].mean;
    let gap = difference_of(high, low);
    let f = sum_of(of(HALF), quotient_of(difference_of(value, low), gap));
    let g = difference_of(of(HALF), quotient_of(difference_of(high, value), gap));
    lemma_clamped(sum_of(before, product_of(ws[k - 1], f)), before, reached, reached);
    lemma_clamped(sum_of(reached, product_of(ws[k], g)), reached, after, reached);
}

/// The value at a quantile answers the quantile up to the weight of one centroid: the weight
/// up to the value, and the weight that the quantile asks for, both lie between the weight
/// before and the weight after the centroid at which the running total crosses.
pub proof fn law_share_at_the_quantile(cs: Seq<Centroid>, ws: Seq<Binary64>, q: Binary64)
    requires
        increasing(cs),
        weighty(ws),
        ws.len() == cs.len(),
        total_of(ws).finite(),
        of(0).lt(q),
        q.lt(of(ONE)),
        cs.len() > 0,
    ensures
        ({
            let target = product_of(q, total_of(ws));
            let k = crossing(ws, target, 0);
            let reached = cumulative_of(cs, ws, quantile_of(cs, ws, q));
            &&& 0 <= k < cs.len()
            &&& total_of(ws.take(k)).le(target)
            &&& target.le(total_of(ws.take(k + 1)))
            &&& total_of(ws.take(k)).le(reached)
            &&& reached.le(total_of(ws.take(k + 1)))
        }),
{
    let target = product_of(q, total_of(ws));
    let k = crossing(ws, target, 0);
    lemma_constants();
    lemma_target(ws, q);
    lemma_before_crossing(ws, target);
    lemma_crossing(ws, target, 0);
    let n = cs.len() as int;
    assert(ws.take(n - 1 + 1) == ws);
    assert(target.le(total_of(ws.take(n - 1 + 1))));
    law_interpolation_stays_in_the_cell(cs, ws, target, k);
    law_cell_holds_its_weight(cs, ws, k, quantile_of(cs, ws, q));
}

} // verus!
