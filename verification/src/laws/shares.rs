//! The share of the weight up to a value: its range and its order.

use vstd::prelude::*;

use crate::binary64::arithmetic::{difference_of, product_of, quotient_of, sum_of, whole};
use crate::binary64::laws::{
    law_difference_is_a_number, law_difference_of_ordered, law_finite_between, law_finite_product,
    law_finite_sum, law_infinities_are_outermost, law_nan_spreads, law_opposite_reverses_order,
    law_product_commutes, law_product_keeps_order, law_quotient_keeps_order,
    law_quotient_of_nonnegative, law_self_quotient_is_one, law_share_is_between_zero_and_one,
    law_sum_keeps_order, law_sum_of_nonnegative, law_whole_adds, law_whole_is_exact, law_whole_one,
    law_zero_is_neutral, law_zero_quotient, lemma_constants,
};
use crate::binary64::number::{lemma_opposite, lemma_value_sign, of, opposite, HALF, ONE};
use crate::binary64::Binary64;
use crate::cells::{lemma_clamped, lemma_middle, middle_of, ordered};
use crate::digest::Centroid;
use crate::distribution::{
    cdf_of, cumulative_between, cumulative_of, lemma_reach_bounds, part_of, reach,
};
use crate::weights::{law_running_total_grows, lemma_total_step, total_of, weighty};

verus! {

/// The weight up to a value lies between the weights up to the centroids around it.
pub proof fn law_cumulative_is_between_neighbours(
    cs: Seq<Centroid>,
    ws: Seq<Binary64>,
    value: Binary64,
)
    requires
        weighty(ws),
        ws.len() == cs.len(),
    ensures
        0 <= reach(cs, value) <= cs.len(),
        0 < reach(cs, value) < cs.len() ==> {
            let k = reach(cs, value);
            &&& total_of(ws.take(k - 1)).le(cumulative_of(cs, ws, value))
            &&& cumulative_of(cs, ws, value).le(total_of(ws.take(k + 1)))
        },
        of(0).le(cumulative_of(cs, ws, value)),
        cumulative_of(cs, ws, value).le(total_of(ws)),
{
    lemma_constants();
    let n = cs.len() as int;
    let k = reach(cs, value);
    lemma_reach_bounds(cs, value, 0);
    assert(ws.take(n) == ws);
    law_running_total_grows(ws, 0, n);
    law_running_total_grows(ws, n, n);
    if 0 < k < n {
        law_running_total_grows(ws, k - 1, k);
        law_running_total_grows(ws, k, k + 1);
        law_running_total_grows(ws, k + 1, n);
        lemma_total_step(ws, k - 1);
        lemma_total_step(ws, k);
        let before = total_of(ws.take(k - 1));
        let reached = total_of(ws.take(k));
        let after = total_of(ws.take(k + 1));
        let low = cs[k - 1].mean;
        let high = cs[k].mean;
        let gap = difference_of(high, low);
        let f = sum_of(of(HALF), quotient_of(difference_of(value, low), gap));
        let g = difference_of(of(HALF), quotient_of(difference_of(high, value), gap));
        lemma_clamped(sum_of(before, product_of(ws[k - 1], f)), before, reached, reached);
        lemma_clamped(sum_of(reached, product_of(ws[k], g)), reached, after, reached);
    }
}

/// The share of the weight up to a value lies between zero and one.
pub proof fn law_share_is_a_probability(cs: Seq<Centroid>, ws: Seq<Binary64>, value: Binary64)
    requires
        weighty(ws),
        ws.len() == cs.len(),
        total_of(ws).finite(),
    ensures
        of(0).le(cdf_of(cs, ws, value)),
        cdf_of(cs, ws, value).le(of(ONE)),
{
    lemma_constants();
    law_cumulative_is_between_neighbours(cs, ws, value);
    let all = total_of(ws);
    if !all.same(of(0)) {
        law_share_is_between_zero_and_one(cumulative_of(cs, ws, value), all);
    }
}

/// Before the first mean there is no weight.
pub proof fn law_no_share_before_the_first_mean(
    cs: Seq<Centroid>,
    ws: Seq<Binary64>,
    value: Binary64,
)
    requires
        weighty(ws),
        ws.len() == cs.len(),
        cs.len() > 0,
        value.lt(cs[0].mean),
    ensures
        cumulative_of(cs, ws, value) == of(0),
        cdf_of(cs, ws, value).same(of(0)),
{
    lemma_constants();
    let n = cs.len() as int;
    assert(ws.take(n) == ws);
    law_running_total_grows(ws, 0, n);
    law_running_total_grows(ws, n, n);
    let all = total_of(ws);
    if !all.same(of(0)) {
        lemma_value_sign(all);
        law_zero_quotient(all);
    }
}

/// From the last mean on there is all the weight.
pub proof fn law_full_share_from_the_last_mean(
    cs: Seq<Centroid>,
    ws: Seq<Binary64>,
    value: Binary64,
)
    requires
        ordered(cs),
        ws.len() == cs.len(),
        cs.len() > 0,
        cs.last().mean.le(value),
    ensures
        cumulative_of(cs, ws, value) == total_of(ws),
        total_of(ws).finite() && !total_of(ws).zero() ==> cdf_of(cs, ws, value) == of(ONE),
{
    lemma_constants();
    lemma_reach_bounds(cs, value, 0);
    let k = reach(cs, value);
    if k < cs.len() {
        assert(cs[k].mean.le(cs[cs.len() - 1].mean));
    }
    let all = total_of(ws);
    lemma_value_sign(all);
    if all.finite() && !all.zero() {
        law_self_quotient_is_one(all);
    }
}

/// A distance as a share of a distance that is not smaller.
proof fn lemma_ratio(d: Binary64, gap: Binary64)
    requires
        d.nonnegative(),
        d.le(gap),
        of(0).lt(gap),
    ensures
        quotient_of(d, gap).nan() <==> d.infinite(),
        d.finite() ==> of(0).le(quotient_of(d, gap)),
        d.finite() ==> quotient_of(d, gap).le(of(ONE)),
{
    reveal(quotient_of);
    lemma_constants();
    lemma_value_sign(gap);
    lemma_value_sign(d);
    if d.finite() {
        law_quotient_of_nonnegative(d, gap);
        if gap.finite() {
            law_share_is_between_zero_and_one(d, gap);
        } else {
            lemma_value_sign(quotient_of(d, gap));
        }
    } else if gap.finite() {
        law_finite_between(of(0), d, gap);
    }
}

/// The fraction of the weight of the lower centroid, past its mean.
spec fn low_fraction(v: Binary64, low: Binary64, high: Binary64) -> Binary64 {
    sum_of(of(HALF), quotient_of(difference_of(v, low), difference_of(high, low)))
}

/// The fraction of the weight of the upper centroid, before its mean.
spec fn high_fraction(v: Binary64, low: Binary64, high: Binary64) -> Binary64 {
    difference_of(of(HALF), quotient_of(difference_of(high, v), difference_of(high, low)))
}

/// The distances between a value and the means around it.
pub(crate) proof fn lemma_distances(v: Binary64, low: Binary64, high: Binary64)
    requires
        low.le(v),
        v.lt(high),
        v.finite(),
    ensures
        difference_of(v, low).nonnegative(),
        difference_of(high, v).nonnegative(),
        of(0).lt(difference_of(high, low)),
        difference_of(v, low).le(difference_of(high, low)),
        difference_of(high, v).le(difference_of(high, low)),
{
    lemma_constants();
    lemma_value_sign(low);
    lemma_value_sign(high);
    law_difference_is_a_number(v, low);
    law_difference_is_a_number(high, v);
    lemma_infinities(low, high);
    law_difference_is_a_number(high, low);
    law_difference_of_ordered(v, low);
    law_difference_of_ordered(high, v);
    law_difference_of_ordered(high, low);
    lemma_opposite(low);
    lemma_opposite(v);
    law_opposite_reverses_order(low, v);
    law_sum_keeps_order(v, opposite(low), high, opposite(low));
    law_sum_keeps_order(high, opposite(v), high, opposite(low));
}

/// Two different infinities have different signs.
proof fn lemma_infinities(low: Binary64, high: Binary64)
    requires
        low.lt(high),
    ensures
        low.finite() || high.finite() || low.negative() != high.negative(),
{
}

/// The fraction past the mean of the lower centroid is a half or more.
proof fn lemma_low_fraction(v: Binary64, low: Binary64, high: Binary64)
    requires
        low.le(v),
        v.lt(high),
        v.finite(),
    ensures
        low_fraction(v, low, high).nan() <==> difference_of(v, low).infinite(),
        !low_fraction(v, low, high).nan() ==> {
            &&& low_fraction(v, low, high).finite()
            &&& of(HALF).le(low_fraction(v, low, high))
        },
{
    lemma_constants();
    lemma_distances(v, low, high);
    let d = difference_of(v, low);
    let gap = difference_of(high, low);
    lemma_ratio(d, gap);
    let q = quotient_of(d, gap);
    if q.nan() {
        law_nan_spreads(of(HALF), q);
    } else {
        law_sum_of_nonnegative(of(HALF), q);
        law_whole_one();
        law_whole_adds(1, 1);
        law_whole_is_exact(2);
        law_sum_of_nonnegative(of(ONE), of(ONE));
        law_sum_keeps_order(of(HALF), q, of(ONE), of(ONE));
        law_finite_between(of(HALF), sum_of(of(HALF), q), whole(2));
    }
}

/// The fraction before the mean of the upper centroid is a half or less.
proof fn lemma_high_fraction(v: Binary64, low: Binary64, high: Binary64)
    requires
        low.le(v),
        v.lt(high),
        v.finite(),
    ensures
        high_fraction(v, low, high).nan() <==> difference_of(high, v).infinite(),
        !high_fraction(v, low, high).nan() ==> {
            &&& high_fraction(v, low, high).finite()
            &&& high_fraction(v, low, high).le(of(HALF))
        },
{
    lemma_constants();
    lemma_distances(v, low, high);
    let d = difference_of(high, v);
    let gap = difference_of(high, low);
    lemma_ratio(d, gap);
    let q = quotient_of(d, gap);
    lemma_opposite(q);
    if q.nan() {
        law_nan_spreads(of(HALF), q);
    } else {
        let minus_one = opposite(of(ONE));
        let minus_zero = opposite(of(0));
        lemma_opposite(of(ONE));
        lemma_opposite(of(0));
        law_opposite_reverses_order(q, of(ONE));
        law_opposite_reverses_order(of(0), q);
        law_finite_between(of(0), q, of(ONE));
        law_difference_is_a_number(of(HALF), q);
        law_zero_is_neutral(of(HALF), minus_zero);
        law_zero_is_neutral(minus_one, of(0));
        law_sum_keeps_order(of(HALF), opposite(q), of(HALF), minus_zero);
        law_sum_keeps_order(of(0), minus_one, of(HALF), opposite(q));
        law_finite_between(minus_one, high_fraction(v, low, high), of(HALF));
    }
}

/// The fraction past the lower mean grows with the value.
proof fn lemma_low_order(a: Binary64, b: Binary64, low: Binary64, high: Binary64)
    requires
        low.le(a),
        a.le(b),
        b.lt(high),
        a.finite(),
        b.finite(),
        !low_fraction(b, low, high).nan(),
    ensures
        !low_fraction(a, low, high).nan(),
        low_fraction(a, low, high).le(low_fraction(b, low, high)),
{
    lemma_constants();
    lemma_distances(a, low, high);
    lemma_distances(b, low, high);
    lemma_low_fraction(a, low, high);
    lemma_low_fraction(b, low, high);
    let gap = difference_of(high, low);
    let da = difference_of(a, low);
    let db = difference_of(b, low);
    law_sum_keeps_order(a, opposite(low), b, opposite(low));
    law_finite_between(of(0), da, db);
    lemma_ratio(da, gap);
    lemma_ratio(db, gap);
    law_quotient_keeps_order(da, db, gap);
    law_sum_keeps_order(of(HALF), quotient_of(da, gap), of(HALF), quotient_of(db, gap));
}

/// The fraction before the upper mean grows with the value.
proof fn lemma_high_order(a: Binary64, b: Binary64, low: Binary64, high: Binary64)
    requires
        low.le(a),
        a.le(b),
        b.lt(high),
        a.finite(),
        b.finite(),
        !high_fraction(a, low, high).nan(),
    ensures
        !high_fraction(b, low, high).nan(),
        high_fraction(a, low, high).le(high_fraction(b, low, high)),
{
    lemma_constants();
    lemma_distances(a, low, high);
    lemma_distances(b, low, high);
    lemma_high_fraction(a, low, high);
    lemma_high_fraction(b, low, high);
    let gap = difference_of(high, low);
    let da = difference_of(high, a);
    let db = difference_of(high, b);
    law_opposite_reverses_order(a, b);
    law_sum_keeps_order(high, opposite(b), high, opposite(a));
    law_finite_between(of(0), db, da);
    lemma_ratio(da, gap);
    lemma_ratio(db, gap);
    law_quotient_keeps_order(db, da, gap);
    law_opposite_reverses_order(quotient_of(db, gap), quotient_of(da, gap));
    law_sum_keeps_order(
        of(HALF),
        opposite(quotient_of(da, gap)),
        of(HALF),
        opposite(quotient_of(db, gap)),
    );
}

/// A larger fraction of a weight is not less.
proof fn lemma_part_order(
    before: Binary64,
    weight: Binary64,
    f: Binary64,
    g: Binary64,
    f_otherwise: Binary64,
    g_otherwise: Binary64,
)
    requires
        before.nonnegative(),
        weight.nonnegative(),
        sum_of(before, weight).finite(),
        f.finite(),
        g.finite(),
        f.le(g),
    ensures
        part_of(before, weight, f, f_otherwise).le(part_of(before, weight, g, g_otherwise)),
{
    lemma_constants();
    law_sum_of_nonnegative(before, weight);
    law_finite_between(of(0), weight, sum_of(before, weight));
    law_finite_between(of(0), before, sum_of(before, weight));
    law_product_commutes(weight, f);
    law_product_commutes(weight, g);
    law_finite_product(f, weight);
    law_finite_product(g, weight);
    law_product_keeps_order(f, g, weight);
    law_finite_sum(before, product_of(weight, f));
    law_finite_sum(before, product_of(weight, g));
    law_sum_keeps_order(before, product_of(weight, f), before, product_of(weight, g));
}

/// A fraction that is not a number gives what stands for it.
proof fn lemma_no_part(before: Binary64, weight: Binary64, f: Binary64, otherwise: Binary64)
    requires
        f.nan(),
    ensures
        part_of(before, weight, f, otherwise) == otherwise,
{
    law_nan_spreads(weight, f);
    law_nan_spreads(before, product_of(weight, f));
}

/// The weight up to a value grows with the value.
pub proof fn law_cumulative_keeps_order(
    cs: Seq<Centroid>,
    ws: Seq<Binary64>,
    a: Binary64,
    b: Binary64,
)
    requires
        ordered(cs),
        weighty(ws),
        ws.len() == cs.len(),
        total_of(ws).finite(),
        a.le(b),
    ensures
        cumulative_of(cs, ws, a).le(cumulative_of(cs, ws, b)),
{
    let n = cs.len() as int;
    let i = reach(cs, a);
    let j = reach(cs, b);
    law_cumulative_is_between_neighbours(cs, ws, a);
    law_cumulative_is_between_neighbours(cs, ws, b);
    lemma_reach_bounds(cs, a, 0);
    lemma_reach_bounds(cs, b, 0);
    assert(ws.take(n) == ws);
    lemma_constants();
    if j < i {
        // The mean after `b` would lie past `a`.
        assert(!a.lt(cs[j].mean));
        assert(false);
    }
    if 0 < i && j < n {
        law_running_total_grows(ws, j + 1, n);
        law_running_total_grows(ws, i, j);
        law_running_total_grows(ws, i - 1, i);
        lemma_total_step(ws, i - 1);
        lemma_total_step(ws, i);
        assert(ws[i - 1].nonnegative() && ws[i].nonnegative());
        if i + 2 <= j {
            law_running_total_grows(ws, i + 1, j - 1);
        } else {
            law_finite_between(of(0), total_of(ws.take(j + 1)), total_of(ws));
            law_running_total_grows(ws, i + 1, n);
            law_running_total_grows(ws, i, n);
            law_running_total_grows(ws, j, n);
            law_finite_between(of(0), total_of(ws.take(i + 1)), total_of(ws));
            law_finite_between(of(0), total_of(ws.take(i)), total_of(ws));
            assert(cs[i - 1].mean.le(cs[i].mean));
            assert(!a.lt(cs[i - 1].mean));
            assert(!b.lt(cs[j - 1].mean));
            if i == j {
                lemma_same_gap_order(cs, ws, a, b, i);
            } else {
                lemma_next_gap_order(cs, ws, a, b, i);
            }
        }
    }
}

/// The order of the weights up to two values between the same means.
proof fn lemma_same_gap_order(
    cs: Seq<Centroid>,
    ws: Seq<Binary64>,
    a: Binary64,
    b: Binary64,
    k: int,
)
    requires
        0 < k < cs.len(),
        ws.len() == cs.len(),
        weighty(ws),
        cs[k - 1].mean.le(a),
        a.le(b),
        b.lt(cs[k].mean),
        total_of(ws.take(k + 1)).finite(),
        total_of(ws.take(k)).finite(),
    ensures
        cumulative_between(cs, ws, a, k).le(cumulative_between(cs, ws, b, k)),
{
    let low = cs[k - 1].mean;
    let high = cs[k].mean;
    let edge = middle_of(low, high);
    let before = total_of(ws.take(k - 1));
    let reached = total_of(ws.take(k));
    let after = total_of(ws.take(k + 1));
    law_running_total_grows(ws, k - 1, k);
    law_running_total_grows(ws, k, k + 1);
    lemma_total_step(ws, k - 1);
    lemma_total_step(ws, k);
    assert(ws[k - 1].nonnegative() && ws[k].nonnegative());
    lemma_middle(low, high);
    let fa = low_fraction(a, low, high);
    let fb = low_fraction(b, low, high);
    let ga = high_fraction(a, low, high);
    let gb = high_fraction(b, low, high);
    lemma_clamped(sum_of(before, product_of(ws[k - 1], fa)), before, reached, reached);
    lemma_clamped(sum_of(before, product_of(ws[k - 1], fb)), before, reached, reached);
    lemma_clamped(sum_of(reached, product_of(ws[k], ga)), reached, after, reached);
    lemma_clamped(sum_of(reached, product_of(ws[k], gb)), reached, after, reached);
    if b.lt(edge) {
        lemma_inside(a, low, high);
        lemma_inside(b, low, high);
        lemma_low_fraction(a, low, high);
        lemma_low_fraction(b, low, high);
        if fb.nan() {
            lemma_no_part(before, ws[k - 1], fb, reached);
        } else {
            lemma_low_order(a, b, low, high);
            lemma_part_order(before, ws[k - 1], fa, fb, reached, reached);
        }
    } else if edge.lt(a) {
        lemma_inside(a, low, high);
        lemma_inside(b, low, high);
        lemma_high_fraction(a, low, high);
        lemma_high_fraction(b, low, high);
        if ga.nan() {
            lemma_no_part(reached, ws[k], ga, reached);
        } else {
            lemma_high_order(a, b, low, high);
            lemma_part_order(reached, ws[k], ga, gb, reached, reached);
        }
    }
}

/// A value strictly on one side of the middle of two means is finite.
proof fn lemma_inside(v: Binary64, low: Binary64, high: Binary64)
    requires
        low.le(v),
        v.lt(high),
        v.lt(middle_of(low, high)) || middle_of(low, high).lt(v),
    ensures
        v.finite(),
{
    reveal(quotient_of);
    reveal(sum_of);
    lemma_constants();
    lemma_middle(low, high);
    law_infinities_are_outermost(low);
    law_infinities_are_outermost(high);
    law_infinities_are_outermost(v);
    law_infinities_are_outermost(middle_of(low, high));
    lemma_value_sign(low);
    lemma_value_sign(v);
}

/// The order of the weights up to two values around a mean.
proof fn lemma_next_gap_order(
    cs: Seq<Centroid>,
    ws: Seq<Binary64>,
    a: Binary64,
    b: Binary64,
    k: int,
)
    requires
        0 < k < cs.len() - 1,
        ws.len() == cs.len(),
        weighty(ws),
        cs[k - 1].mean.le(a),
        a.lt(cs[k].mean),
        cs[k].mean.le(b),
        b.lt(cs[k + 1].mean),
        total_of(ws.take(k + 1)).finite(),
        total_of(ws.take(k)).finite(),
    ensures
        cumulative_between(cs, ws, a, k).le(cumulative_between(cs, ws, b, k + 1)),
{
    lemma_constants();
    let low = cs[k - 1].mean;
    let mean = cs[k].mean;
    let high = cs[k + 1].mean;
    let before = total_of(ws.take(k - 1));
    let reached = total_of(ws.take(k));
    let after = total_of(ws.take(k + 1));
    let last = total_of(ws.take(k + 2));
    law_running_total_grows(ws, k - 1, k);
    law_running_total_grows(ws, k, k + 1);
    law_running_total_grows(ws, k + 1, k + 2);
    lemma_total_step(ws, k - 1);
    lemma_total_step(ws, k);
    lemma_total_step(ws, k + 1);
    assert(ws[k - 1].nonnegative() && ws[k].nonnegative() && ws[k + 1].nonnegative());
    lemma_middle(low, mean);
    lemma_middle(mean, high);
    let fa = low_fraction(a, low, mean);
    let ga = high_fraction(a, low, mean);
    let fb = low_fraction(b, mean, high);
    let gb = high_fraction(b, mean, high);
    lemma_clamped(sum_of(before, product_of(ws[k - 1], fa)), before, reached, reached);
    lemma_clamped(sum_of(reached, product_of(ws[k], ga)), reached, after, reached);
    lemma_clamped(sum_of(reached, product_of(ws[k], fb)), reached, after, after);
    lemma_clamped(sum_of(after, product_of(ws[k + 1], gb)), after, last, after);
    if middle_of(low, mean).lt(a) && b.lt(middle_of(mean, high)) {
        lemma_inside(a, low, mean);
        lemma_inside(b, mean, high);
        lemma_high_fraction(a, low, mean);
        lemma_low_fraction(b, mean, high);
        if ga.nan() {
            lemma_no_part(reached, ws[k], ga, reached);
        } else if fb.nan() {
            lemma_no_part(reached, ws[k], fb, after);
        } else {
            lemma_part_order(reached, ws[k], ga, fb, reached, after);
        }
    }
}

/// The share of the weight up to a value grows with the value.
pub proof fn law_share_keeps_order(
    cs: Seq<Centroid>,
    ws: Seq<Binary64>,
    a: Binary64,
    b: Binary64,
)
    requires
        ordered(cs),
        weighty(ws),
        ws.len() == cs.len(),
        total_of(ws).finite(),
        a.le(b),
    ensures
        cdf_of(cs, ws, a).le(cdf_of(cs, ws, b)),
{
    lemma_constants();
    law_cumulative_keeps_order(cs, ws, a, b);
    law_cumulative_is_between_neighbours(cs, ws, a);
    law_cumulative_is_between_neighbours(cs, ws, b);
    law_share_is_a_probability(cs, ws, a);
    law_share_is_a_probability(cs, ws, b);
    let all = total_of(ws);
    if !all.same(of(0)) {
        law_quotient_keeps_order(cumulative_of(cs, ws, a), cumulative_of(cs, ws, b), all);
    }
}

} // verus!
