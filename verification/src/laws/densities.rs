//! The range of densities.

use vstd::prelude::*;

use crate::binary64::arithmetic::{difference_of, product_of, quotient_of, whole};
use crate::binary64::laws::{
    law_difference_is_a_number, law_difference_of_ordered, law_finite_between, law_finite_product,
    law_finite_sum, law_one_is_neutral, law_opposite_reverses_order, law_product_keeps_order,
    law_product_of_nonnegative, law_quotient_of_nonnegative, law_share_is_between_zero_and_one,
    law_sum_keeps_order, law_whole_is_exact, law_whole_keeps_order, law_whole_one,
    law_zero_is_neutral, lemma_constants,
};
use crate::binary64::number::{lemma_opposite, of, opposite, HUNDRED, ONE};
use crate::binary64::Binary64;
use crate::cells::ordered;
use crate::density::{grid_at, percent_between, percent_of, step_of, weighted_density_of};
use crate::digest::Centroid;
use crate::distribution::cumulative_of;
use crate::laws::shares::{law_cumulative_is_between_neighbours, law_cumulative_keeps_order};
use crate::weights::{total_of, weighty};

verus! {

/// The edges of bins of finite width do not go down.
pub proof fn law_grid_keeps_order(x_min: Binary64, dx: Binary64, k: int)
    requires
        x_min.finite(),
        dx.finite(),
        dx.nonnegative(),
        0 <= k <= i32::MAX,
    ensures
        grid_at(x_min, dx, k).le(grid_at(x_min, dx, k + 1)),
{
    law_whole_is_exact(k);
    law_whole_is_exact(k + 1);
    law_whole_keeps_order(k, k + 1);
    law_finite_product(whole(k), dx);
    law_finite_product(whole(k + 1), dx);
    law_product_keeps_order(whole(k), whole(k + 1), dx);
    law_finite_sum(x_min, product_of(whole(k), dx));
    law_finite_sum(x_min, product_of(whole(k + 1), dx));
    law_sum_keeps_order(x_min, product_of(whole(k), dx), x_min, product_of(whole(k + 1), dx));
}

/// A share between zero and one is a percentage between zero and a hundred.
pub(crate) proof fn lemma_percent(x: Binary64)
    requires
        of(0).le(x),
        x.le(of(ONE)),
    ensures
        of(0).le(percent_of(x)),
        percent_of(x).le(of(HUNDRED)),
{
    lemma_constants();
    law_product_of_nonnegative(x, of(HUNDRED));
    law_one_is_neutral(of(HUNDRED));
    law_product_keeps_order(x, of(ONE), of(HUNDRED));
}

/// The distance of two numbers between zero and a limit stays below the limit.
pub(crate) proof fn lemma_distance_below(low: Binary64, high: Binary64, limit: Binary64)
    requires
        of(0).le(low),
        low.le(high),
        high.le(limit),
        limit.finite(),
    ensures
        of(0).le(difference_of(high, low)),
        difference_of(high, low).le(limit),
{
    lemma_constants();
    law_finite_between(of(0), high, limit);
    law_finite_between(of(0), low, limit);
    law_difference_is_a_number(high, low);
    law_difference_of_ordered(high, low);
    lemma_opposite(of(0));
    law_opposite_reverses_order(of(0), low);
    law_zero_is_neutral(high, opposite(of(0)));
    law_sum_keeps_order(high, opposite(low), high, opposite(of(0)));
}

/// Shares that are ordered between zero and one leave a percentage between zero and a hundred.
pub proof fn law_ordered_shares_leave_a_percentage(low: Binary64, high: Binary64)
    requires
        of(0).le(low),
        low.le(high),
        high.le(of(ONE)),
    ensures
        of(0).le(percent_between(low, high)),
        percent_between(low, high).le(of(HUNDRED)),
{
    lemma_constants();
    lemma_distance_below(low, high, of(ONE));
    lemma_percent(difference_of(high, low));
}

/// Each bin of a weighted density is a percentage between zero and a hundred.
pub proof fn law_density_is_a_percentage(
    cs: Seq<Centroid>,
    ws: Seq<Binary64>,
    n: int,
    x_min: Binary64,
    x_max: Binary64,
    i: int,
)
    requires
        ordered(cs),
        weighty(ws),
        ws.len() == cs.len(),
        total_of(ws).finite(),
        x_min.le(x_max),
        x_min.finite(),
        x_max.finite(),
        step_of(n, x_min, x_max).finite(),
        0 <= i < n <= i32::MAX,
    ensures
        of(0).le(weighted_density_of(cs, ws, n, x_min, step_of(n, x_min, x_max))[i]),
        weighted_density_of(cs, ws, n, x_min, step_of(n, x_min, x_max))[i].le(of(HUNDRED)),
{
    lemma_constants();
    let dx = step_of(n, x_min, x_max);
    law_difference_is_a_number(x_max, x_min);
    law_difference_of_ordered(x_max, x_min);
    law_whole_one();
    law_whole_keeps_order(1, n);
    law_whole_is_exact(n);
    law_quotient_of_nonnegative(difference_of(x_max, x_min), whole(n));
    law_grid_keeps_order(x_min, dx, i);
    let low = cumulative_of(cs, ws, grid_at(x_min, dx, i));
    let high = cumulative_of(cs, ws, grid_at(x_min, dx, i + 1));
    let all = total_of(ws);
    law_cumulative_keeps_order(cs, ws, grid_at(x_min, dx, i), grid_at(x_min, dx, i + 1));
    law_cumulative_is_between_neighbours(cs, ws, grid_at(x_min, dx, i));
    law_cumulative_is_between_neighbours(cs, ws, grid_at(x_min, dx, i + 1));
    if !all.same(of(0)) {
        lemma_distance_below(low, high, all);
        law_share_is_between_zero_and_one(difference_of(high, low), all);
        lemma_percent(quotient_of(difference_of(high, low), all));
    }
}

} // verus!
