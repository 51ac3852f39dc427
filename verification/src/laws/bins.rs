//! What a density is: the percentages between the edges of equal bins.

use vstd::prelude::*;

use crate::binary64::arithmetic::{difference_of, distance, product_of, quotient_of, unity};
use crate::binary64::deviation::lemma_product_size;
use crate::binary64::errors::{
    ceiling, law_product_error, law_product_overflows_when_huge, law_sum_error,
    law_sum_overflows_when_huge, lemma_ceiling, lemma_rounding_unit, lemma_spacing, rounding_unit,
    spacing,
};
use crate::binary64::laws::lemma_constants;
use crate::binary64::number::{lemma_opposite, of, opposite, HUNDRED};
use crate::binary64::powers::two_to;
use crate::binary64::rank::BLOCK;
use crate::binary64::Binary64;
use crate::cells::ordered;
use crate::density::{
    density_between, grid_at, is_estimated_density, is_weighted_density, percent_between, sampled,
    step_of, weighted_density_of,
};
use crate::digest::{InternalTDigest, TDigestView};
use crate::distribution::{cdf_of, cumulative_of, estimated, ranked};
use crate::laws::adding_up::{
    law_any_density_bin_is_the_share_between_its_edges,
    law_density_bin_is_the_share_between_its_edges,
};
use crate::laws::grids::{
    law_edges_lie_evenly_between_the_ends, law_grid_between_moderate_ends_is_finite, moderate,
};
use crate::laws::round_trip::larger;
use crate::weights::{raised, total_of, weights_of, weighty};

verus! {

/// The edges of `n` equal bins between two ends, each up to rounding. Between moderate ends none of
/// them overflows.
pub open spec fn even_edges(
    n: int,
    x_min: Binary64,
    x_max: Binary64,
    edges: Seq<Binary64>,
) -> bool {
    let s = larger(spacing(x_min), spacing(x_max));
    &&& edges.len() == n + 1
    &&& moderate(x_min, x_max) ==> forall|k: int| 0 <= k <= n ==> (#[trigger] edges[k]).finite()
    &&& forall|k: int|
        0 <= k <= n && (#[trigger] edges[k]).finite() ==> distance(
            n * edges[k].value() - (n * x_min.value() + k * (x_max.value() - x_min.value())),
        ) <= n * (20 * s + n)
}

/// The edges of a grid.
pub(crate) closed spec fn grid_edges(n: int, x_min: Binary64, x_max: Binary64) -> Seq<Binary64> {
    Seq::new((n + 1) as nat, |k: int| grid_at(x_min, step_of(n, x_min, x_max), k))
}

/// They lie evenly between the ends.
pub(crate) proof fn lemma_grid_edges(n: int, x_min: Binary64, x_max: Binary64)
    requires
        x_min.finite(),
        x_max.finite(),
        step_of(n, x_min, x_max).finite(),
        1 <= n <= i32::MAX,
    ensures
        even_edges(n, x_min, x_max, grid_edges(n, x_min, x_max)),
        forall|k: int|
            0 <= k <= n ==> #[trigger] grid_edges(n, x_min, x_max)[k] == grid_at(
                x_min,
                step_of(n, x_min, x_max),
                k,
            ),
{
    let edges = grid_edges(n, x_min, x_max);
    let s = larger(spacing(x_min), spacing(x_max));
    assert forall|k: int| 0 <= k <= n && (#[trigger] edges[k]).finite() implies distance(
        n * edges[k].value() - (n * x_min.value() + k * (x_max.value() - x_min.value())),
    ) <= n * (20 * s + n) by {
        law_edges_lie_evenly_between_the_ends(n, x_min, x_max, k);
    }
    if moderate(x_min, x_max) {
        assert forall|k: int| 0 <= k <= n implies (#[trigger] edges[k]).finite() by {
            law_grid_between_moderate_ends_is_finite(n, x_min, x_max, k);
        }
    }
}

/// A weighted density holds, for each of `num_points` equal bins between the ends, a hundred times
/// the difference of the shares at its edges, up to rounding. The weights are those that the powers
/// of the means give.
pub proof fn law_weighted_density_is_made_of_shares<P: Fn(Binary64, Binary64) -> Binary64>(
    powf: P,
    digest: TDigestView,
    num_points: i32,
    x_min: Binary64,
    x_max: Binary64,
    weight_power: Binary64,
    r: Seq<Binary64>,
) -> (res: (Seq<Binary64>, Seq<Binary64>))
    requires
        is_weighted_density(powf, digest, num_points, x_min, x_max, weight_power, r),
        num_points > 0,
        digest.count > 0,
        x_min.finite(),
        x_max.finite(),
        step_of(num_points as int, x_min, x_max).finite(),
    ensures
        ({
            let (powers, edges) = res;
            let cs = digest.centroids;
            let ws = weights_of(cs, weight_power, powers);
            &&& raised(powf, cs, weight_power, powers)
            &&& even_edges(num_points as int, x_min, x_max, edges)
            &&& r.len() == num_points
            &&& forall|i: int|
                0 <= i < num_points ==> {
                    let low = cdf_of(cs, ws, edges[i]);
                    let high = cdf_of(cs, ws, edges[i + 1]);
                    let a = cumulative_of(cs, ws, edges[i]);
                    let b = cumulative_of(cs, ws, edges[i + 1]);
                    &&& total_of(ws).same(of(0)) ==> #[trigger] r[i] == of(0)
                    &&& !total_of(ws).same(of(0)) ==> r[i] == product_of(
                        quotient_of(difference_of(b, a), total_of(ws)),
                        of(HUNDRED),
                    )
                    &&& {
                        &&& total_of(ws).finite()
                        &&& !total_of(ws).same(of(0))
                        &&& a.finite()
                        &&& b.finite()
                        &&& difference_of(b, a).finite()
                        &&& low.finite()
                        &&& high.finite()
                        &&& product_of(
                            quotient_of(difference_of(b, a), total_of(ws)),
                            of(HUNDRED),
                        ).finite()
                    } ==> r[i].finite() && BLOCK * distance(
                        r[i].value() - 100 * (high.value() - low.value()),
                    ) <= 512 * (unity() + distance(low.value()) + distance(high.value()))
                    &&& {
                        &&& ordered(cs)
                        &&& weighty(ws)
                        &&& total_of(ws).finite()
                        &&& x_min.le(x_max)
                    } ==> r[i].finite() && distance(
                        r[i].value() - 100 * (high.value() - low.value()),
                    ) <= two_to(1074 - 44)
                }
        }),
{
    let n = num_points as int;
    let dx = step_of(n, x_min, x_max);
    let cs = digest.centroids;
    let powers = choose|powers: Seq<Binary64>|
        {
            &&& #[trigger] raised(powf, cs, weight_power, powers)
            &&& r == weighted_density_of(cs, weights_of(cs, weight_power, powers), n, x_min, dx)
        };
    let ws = weights_of(cs, weight_power, powers);
    let edges = grid_edges(n, x_min, x_max);
    lemma_grid_edges(n, x_min, x_max);
    assert forall|i: int| 0 <= i < n implies {
        let low = cdf_of(cs, ws, edges[i]);
        let high = cdf_of(cs, ws, edges[i + 1]);
        let a = cumulative_of(cs, ws, edges[i]);
        let b = cumulative_of(cs, ws, edges[i + 1]);
        &&& total_of(ws).same(of(0)) ==> #[trigger] r[i] == of(0)
        &&& !total_of(ws).same(of(0)) ==> r[i] == product_of(
            quotient_of(difference_of(b, a), total_of(ws)),
            of(HUNDRED),
        )
        &&& {
            &&& total_of(ws).finite()
            &&& !total_of(ws).same(of(0))
            &&& a.finite()
            &&& b.finite()
            &&& difference_of(b, a).finite()
            &&& low.finite()
            &&& high.finite()
            &&& product_of(
                quotient_of(difference_of(b, a), total_of(ws)),
                of(HUNDRED),
            ).finite()
        } ==> r[i].finite() && BLOCK * distance(r[i].value() - 100 * (high.value() - low.value()))
            <= 512 * (unity() + distance(low.value()) + distance(high.value()))
        &&& {
            &&& ordered(cs)
            &&& weighty(ws)
            &&& total_of(ws).finite()
            &&& x_min.le(x_max)
        } ==> r[i].finite() && distance(r[i].value() - 100 * (high.value() - low.value())) <= two_to(
            1074 - 44,
        )
    } by {
        let low = cdf_of(cs, ws, edges[i]);
        let high = cdf_of(cs, ws, edges[i + 1]);
        let a = cumulative_of(cs, ws, edges[i]);
        let b = cumulative_of(cs, ws, edges[i + 1]);
        if r[i].finite() && total_of(ws).finite() && a.finite() && b.finite() && difference_of(
            b,
            a,
        ).finite() && low.finite() && high.finite() {
            law_any_density_bin_is_the_share_between_its_edges(cs, ws, n, x_min, dx, i);
        }
        if ordered(cs) && weighty(ws) && total_of(ws).finite() && x_min.le(x_max) {
            law_density_bin_is_the_share_between_its_edges(cs, ws, n, x_min, x_max, i);
        }
    }
    (powers, edges)
}

/// The percentage between two estimates, up to rounding.
proof fn lemma_percent_between(low: Binary64, high: Binary64)
    requires
        low.finite(),
        high.finite(),
        difference_of(high, low).finite(),
        percent_between(low, high).finite(),
    ensures
        BLOCK * distance(percent_between(low, high).value() - 100 * (high.value() - low.value()))
            <= 512 * (unity() + distance(low.value()) + distance(high.value())),
{
    lemma_constants();
    lemma_rounding_unit();
    let u = unity();
    let d = difference_of(high, low);
    lemma_opposite(low);
    law_sum_error(high, opposite(low));
    law_product_error(d, of(HUNDRED));
    let bin = percent_between(low, high);
    lemma_spacing(bin);
    let dv = d.value();
    let bv = bin.value();
    let gb = spacing(bin);
    let t = bv - 100 * dv;
    let e = dv - (high.value() - low.value());
    assert(bv * u - dv * (100 * u) == t * u) by (nonlinear_arith)
        requires
            t == bv - 100 * dv,
    ;
    let at = distance(t);
    assert(2 * at <= gb) by (nonlinear_arith)
        requires
            2 * (t * u) <= gb * u,
            -(2 * (t * u)) <= gb * u,
            at == t || at == -t,
            u > 0,
    ;
    let ae = distance(e);
    let size = u + distance(low.value()) + distance(high.value());
    let ad = distance(dv);
    let k: int = BLOCK as int;
    assert(u >= k) by (nonlinear_arith)
        requires
            u == 2 * k * rounding_unit(),
            rounding_unit() >= 1,
            k > 0,
    ;
    assert(k * ae <= size && k * at <= 200 * size) by (nonlinear_arith)
        requires
            2 * k * ae <= ad,
            ad <= ae + (size - u),
            2 * at <= gb,
            gb == 1 || k * gb <= 100 * ad + at,
            u >= k,
            size >= u,
            ae >= 0,
            at >= 0,
            k == 0x10_0000_0000_0000,
    ;
    let far = distance(bv - 100 * (high.value() - low.value()));
    assert(far <= at + 100 * ae);
    assert(k * far <= k * at + 100 * (k * ae)) by (nonlinear_arith)
        requires
            far <= at + 100 * ae,
            k > 0,
    ;
}

/// The percentage between two estimates that are not huge does not overflow.
proof fn lemma_percent_is_finite(low: Binary64, high: Binary64)
    requires
        low.finite(),
        high.finite(),
        1024 * (distance(low.value()) + distance(high.value())) <= ceiling(),
    ensures
        difference_of(high, low).finite(),
        percent_between(low, high).finite(),
{
    lemma_constants();
    lemma_ceiling();
    let u = unity();
    let c = ceiling();
    let d = difference_of(high, low);
    lemma_opposite(low);
    law_sum_overflows_when_huge(high, opposite(low));
    law_sum_error(high, opposite(low));
    let x = d.value();
    let t = distance(x);
    let most = distance(low.value()) + distance(high.value());
    let e = distance(x - (high.value() - low.value()));
    assert(2 * e <= t) by (nonlinear_arith)
        requires
            2 * BLOCK * e <= t,
            e >= 0,
            BLOCK == 0x10_0000_0000_0000,
    ;
    assert(t <= 2 * most);
    lemma_product_size(x, 100 * u);
    assert(2 * (t * (100 * u)) < c * u) by (nonlinear_arith)
        requires
            t <= 2 * most,
            1024 * most <= c,
            c >= 1,
            u > 0,
    {
        assert(2 * (t * (100 * u)) == (200 * t) * u);
        assert(200 * t < c);
    }
    law_product_overflows_when_huge(d, of(HUNDRED));
}

/// An estimated density holds, for each of `num_points` equal bins between the ends, a hundred times
/// the difference of what was estimated at its edges, up to rounding.
pub proof fn law_estimated_density_is_made_of_estimates<
    E: Fn(&InternalTDigest, Binary64) -> Binary64,
>(
    estimate: E,
    digest: TDigestView,
    num_points: i32,
    x_min: Binary64,
    x_max: Binary64,
    r: Seq<Binary64>,
) -> (res: (Seq<Binary64>, Seq<Binary64>, Seq<Binary64>))
    requires
        is_estimated_density(estimate, digest, num_points, x_min, x_max, r),
        num_points > 0,
        digest.count > 0,
        x_min.finite(),
        x_max.finite(),
        step_of(num_points as int, x_min, x_max).finite(),
    ensures
        ({
            let (edges, lows, highs) = res;
            &&& even_edges(num_points as int, x_min, x_max, edges)
            &&& r.len() == num_points
            &&& lows.len() == num_points
            &&& highs.len() == num_points
            &&& forall|i: int|
                0 <= i < num_points ==> {
                    &&& estimated(estimate, digest, edges[i], lows[i])
                    &&& estimated(estimate, digest, edges[i + 1], highs[i])
                    &&& #[trigger] r[i] == product_of(
                        difference_of(highs[i], lows[i]),
                        of(HUNDRED),
                    )
                    &&& {
                        &&& lows[i].finite()
                        &&& highs[i].finite()
                        &&& 1024 * (distance(lows[i].value()) + distance(highs[i].value()))
                            <= ceiling()
                    } ==> {
                        &&& r[i].finite()
                        &&& BLOCK * distance(
                            r[i].value() - 100 * (highs[i].value() - lows[i].value()),
                        ) <= 512 * (unity() + distance(lows[i].value()) + distance(
                            highs[i].value(),
                        ))
                    }
                }
        }),
{
    let n = num_points as int;
    let dx = step_of(n, x_min, x_max);
    let (lows, highs) = choose|lows: Seq<Binary64>, highs: Seq<Binary64>|
        #[trigger] sampled(estimate, digest, n, x_min, dx, lows, highs) && r == density_between(
            lows,
            highs,
        );
    let edges = grid_edges(n, x_min, x_max);
    lemma_grid_edges(n, x_min, x_max);
    assert forall|i: int| 0 <= i < n implies {
        &&& estimated(estimate, digest, edges[i], lows[i])
        &&& estimated(estimate, digest, edges[i + 1], highs[i])
        &&& #[trigger] r[i] == product_of(difference_of(highs[i], lows[i]), of(HUNDRED))
        &&& {
            &&& lows[i].finite()
            &&& highs[i].finite()
            &&& 1024 * (distance(lows[i].value()) + distance(highs[i].value())) <= ceiling()
        } ==> {
            &&& r[i].finite()
            &&& BLOCK * distance(r[i].value() - 100 * (highs[i].value() - lows[i].value())) <= 512 * (
            unity() + distance(lows[i].value()) + distance(highs[i].value()))
        }
    } by {
        assert(estimated(estimate, digest, grid_at(x_min, dx, i), lows[i]));
        assert(estimated(estimate, digest, grid_at(x_min, dx, i + 1), highs[i]));
        if lows[i].finite() && highs[i].finite() && 1024 * (distance(lows[i].value()) + distance(
            highs[i].value(),
        )) <= ceiling() {
            lemma_percent_is_finite(lows[i], highs[i]);
            lemma_percent_between(lows[i], highs[i]);
        }
    }
    (edges, lows, highs)
}

/// Without points there is no bin; without values every bin is zero.
pub proof fn law_density_of_nothing_is_zero<
    P: Fn(Binary64, Binary64) -> Binary64,
    E: Fn(&InternalTDigest, Binary64) -> Binary64,
>(
    powf: P,
    estimate: E,
    digest: TDigestView,
    num_points: i32,
    x_min: Binary64,
    x_max: Binary64,
    weight_power: Binary64,
    r: Seq<Binary64>,
)
    requires
        is_weighted_density(powf, digest, num_points, x_min, x_max, weight_power, r)
            || is_estimated_density(estimate, digest, num_points, x_min, x_max, r),
    ensures
        num_points <= 0 ==> r.len() == 0,
        num_points > 0 ==> r.len() == num_points,
        digest.count == 0 ==> forall|i: int| 0 <= i < r.len() ==> #[trigger] r[i] == of(0),
{
    let n = num_points as int;
    if n > 0 && digest.count != 0 {
        if is_weighted_density(powf, digest, num_points, x_min, x_max, weight_power, r) {
            let cs = digest.centroids;
            let powers = choose|powers: Seq<Binary64>|
                {
                    &&& #[trigger] raised(powf, cs, weight_power, powers)
                    &&& r == weighted_density_of(
                        cs,
                        weights_of(cs, weight_power, powers),
                        n,
                        x_min,
                        step_of(n, x_min, x_max),
                    )
                };
        }
    }
}

/// An estimate is what the engine gave for a digest with the same figures, each in its own place,
/// and for the value that was asked for.
pub proof fn law_estimate_is_asked_of_the_digest<E: Fn(&InternalTDigest, Binary64) -> Binary64>(
    estimate: E,
    digest: TDigestView,
    value: Binary64,
    r: Binary64,
) -> (internal: InternalTDigest)
    requires
        estimated(estimate, digest, value, r),
    ensures
        call_ensures(estimate, (&internal, value), r),
        internal.centroids@ == digest.centroids,
        internal.sum == digest.sum,
        internal.count == digest.count,
        internal.min == digest.min,
        internal.max == digest.max,
        internal.max_size == digest.max_buckets,
{
    choose|internal: InternalTDigest|
        internal@ == digest.internal() && #[trigger] call_ensures(estimate, (&internal, value), r)
}

/// The share up to a value is the engine's estimate where the weight power is zero, and otherwise
/// the share of the weights that the powers of the means give.
pub proof fn law_weight_power_decides_who_is_asked<
    P: Fn(Binary64, Binary64) -> Binary64,
    E: Fn(&InternalTDigest, Binary64) -> Binary64,
>(
    powf: P,
    estimate: E,
    digest: TDigestView,
    value: Binary64,
    weight_power: Binary64,
    r: Binary64,
)
    requires
        ranked(powf, estimate, digest, value, weight_power, r),
    ensures
        weight_power.same(of(0)) ==> estimated(estimate, digest, value, r),
        !weight_power.same(of(0)) ==> exists|powers: Seq<Binary64>|
            {
                &&& #[trigger] raised(powf, digest.centroids, weight_power, powers)
                &&& r == cdf_of(
                    digest.centroids,
                    weights_of(digest.centroids, weight_power, powers),
                    value,
                )
            },
{
}

} // verus!
