//! Weighting values as they are written, and weighting centroids as they are queried.

use vstd::prelude::*;

use crate::aggregate::{weighted_entry_of, Entry};
use crate::binary64::arithmetic::{product_of, unity, whole};
use crate::binary64::laws::{law_whole_is_exact, law_whole_multiplies, lemma_constants};
use crate::binary64::rank::BLOCK;
use crate::binary64::Binary64;
use crate::density::{grid_at, weighted_density_of};
use crate::digest::{Centroid, TDigestView};
use crate::distribution::{cdf_of, cumulative_of, lemma_reach_bounds, reach, reach_from};
use crate::histogram::{bins_of, histogram_of};
use crate::kernel::is_kernel_density;
use crate::laws::relative_weights::{lemma_kernel_density_looks_at_means, same_means};
use crate::laws::weighting::law_integer_weight_is_taken_as_it_is;
use crate::quantile::{crossing, interpolated, lemma_crossing, quantile_of};
use crate::weights::{counts_of, plain, total_of, weights_of};

verus! {

/// A value at a quantile depends on the places of the centroids and on the given weights.
proof fn lemma_quantile_looks_at_means(
    cs: Seq<Centroid>,
    ds: Seq<Centroid>,
    ws: Seq<Binary64>,
    q: Binary64,
)
    requires
        same_means(cs, ds),
        ws.len() == cs.len(),
    ensures
        quantile_of(ds, ws, q) == quantile_of(cs, ws, q),
{
    let n = cs.len() as int;
    if n > 0 {
        assert(ds[0].mean == cs[0].mean);
        assert(ds[n - 1].mean == cs[n - 1].mean);
        let target = product_of(q, total_of(ws));
        lemma_crossing(ws, target, 0);
        let k = crossing(ws, target, 0);
        if k < n {
            assert(ds[k].mean == cs[k].mean);
            if k > 0 {
                assert(ds[k - 1].mean == cs[k - 1].mean);
            }
            if k + 1 < n {
                assert(ds[k + 1].mean == cs[k + 1].mean);
            }
            assert(interpolated(ds, ws, target, k) == interpolated(cs, ws, target, k));
        }
    }
}

/// How many means come up to a value depends on the places of the centroids.
proof fn lemma_reach_looks_at_means(
    cs: Seq<Centroid>,
    ds: Seq<Centroid>,
    value: Binary64,
    i: int,
)
    requires
        same_means(cs, ds),
        0 <= i <= cs.len(),
    ensures
        reach_from(ds, value, i) == reach_from(cs, value, i),
    decreases cs.len() - i,
{
    if i < cs.len() {
        assert(ds[i].mean == cs[i].mean);
        lemma_reach_looks_at_means(cs, ds, value, i + 1);
    }
}

/// The weight up to a value depends on the places of the centroids and on the given weights.
proof fn lemma_cumulative_looks_at_means(
    cs: Seq<Centroid>,
    ds: Seq<Centroid>,
    ws: Seq<Binary64>,
    value: Binary64,
)
    requires
        same_means(cs, ds),
    ensures
        cumulative_of(ds, ws, value) == cumulative_of(cs, ws, value),
{
    lemma_reach_looks_at_means(cs, ds, value, 0);
    lemma_reach_bounds(cs, value, 0);
    let k = reach(cs, value);
    if 0 < k < cs.len() {
        assert(ds[k - 1].mean == cs[k - 1].mean);
        assert(ds[k].mean == cs[k].mean);
    }
}

/// The digests `cs` and `ds` have their centroids at the same places, and each centroid of `ds`
/// was written with the weight that the query gives the centroid of `cs`.
pub open spec fn written_with(
    cs: Seq<Centroid>,
    ds: Seq<Centroid>,
    weight_power: Binary64,
    powers: Seq<Binary64>,
) -> bool {
    &&& same_means(cs, ds)
    &&& counts_of(ds) == weights_of(cs, weight_power, powers)
}

/// Weighting at write time and at query time comes to the same value at every quantile.
pub proof fn law_write_time_quantile_is_query_time_quantile(
    cs: Seq<Centroid>,
    ds: Seq<Centroid>,
    weight_power: Binary64,
    powers: Seq<Binary64>,
    q: Binary64,
)
    requires
        written_with(cs, ds, weight_power, powers),
    ensures
        quantile_of(ds, counts_of(ds), q) == quantile_of(
            cs,
            weights_of(cs, weight_power, powers),
            q,
        ),
{
    lemma_quantile_looks_at_means(cs, ds, counts_of(ds), q);
}

/// Weighting at write time and at query time comes to the same share at every value.
pub proof fn law_write_time_share_is_query_time_share(
    cs: Seq<Centroid>,
    ds: Seq<Centroid>,
    weight_power: Binary64,
    powers: Seq<Binary64>,
    value: Binary64,
)
    requires
        written_with(cs, ds, weight_power, powers),
    ensures
        cdf_of(ds, counts_of(ds), value) == cdf_of(
            cs,
            weights_of(cs, weight_power, powers),
            value,
        ),
{
    lemma_cumulative_looks_at_means(cs, ds, counts_of(ds), value);
}

/// Weighting at write time and at query time comes to the same density.
pub proof fn law_write_time_density_is_query_time_density(
    cs: Seq<Centroid>,
    ds: Seq<Centroid>,
    weight_power: Binary64,
    powers: Seq<Binary64>,
    n: int,
    x_min: Binary64,
    dx: Binary64,
)
    requires
        written_with(cs, ds, weight_power, powers),
    ensures
        weighted_density_of(ds, counts_of(ds), n, x_min, dx) == weighted_density_of(
            cs,
            weights_of(cs, weight_power, powers),
            n,
            x_min,
            dx,
        ),
{
    let r = weighted_density_of(ds, counts_of(ds), n, x_min, dx);
    let s = weighted_density_of(cs, weights_of(cs, weight_power, powers), n, x_min, dx);
    assert forall|i: int| 0 <= i < r.len() implies #[trigger] r[i] == s[i] by {
        lemma_cumulative_looks_at_means(cs, ds, counts_of(ds), grid_at(x_min, dx, i));
        lemma_cumulative_looks_at_means(cs, ds, counts_of(ds), grid_at(x_min, dx, i + 1));
    }
    assert(r =~= s);
}

/// Weighting at write time and at query time comes to the same histogram.
pub proof fn law_write_time_histogram_is_query_time_histogram(
    digest: TDigestView,
    written: TDigestView,
    edges: Seq<Binary64>,
    weight_power: Binary64,
    powers: Seq<Binary64>,
)
    requires
        written_with(digest.centroids, written.centroids, weight_power, powers),
        digest.count == 0 <==> written.count == 0,
    ensures
        histogram_of(written, edges, counts_of(written.centroids)) == histogram_of(
            digest,
            edges,
            weights_of(digest.centroids, weight_power, powers),
        ),
{
    let xs = bins_of(digest.centroids, edges);
    let ys = bins_of(written.centroids, edges);
    assert forall|i: int| 0 <= i < xs.len() implies #[trigger] ys[i] == xs[i] by {
        assert(written.centroids[i].mean == digest.centroids[i].mean);
    }
    assert(ys =~= xs);
}

/// Weighting at write time and at query time comes to the same kernel density: what it can be in
/// one way, it can be in the other.
pub proof fn law_write_time_kernel_density_is_query_time_kernel_density<
    P: Fn(Binary64, Binary64) -> Binary64,
    X: Fn(Binary64) -> Binary64,
>(
    powf: P,
    exp: X,
    cs: Seq<Centroid>,
    ds: Seq<Centroid>,
    weight_power: Binary64,
    powers: Seq<Binary64>,
    n: int,
    x_min: Binary64,
    dx: Binary64,
    bandwidth: Binary64,
    r: Seq<Binary64>,
)
    requires
        written_with(cs, ds, weight_power, powers),
    ensures
        is_kernel_density(powf, exp, ds, counts_of(ds), n, x_min, dx, bandwidth, r)
            <==> is_kernel_density(
            powf,
            exp,
            cs,
            weights_of(cs, weight_power, powers),
            n,
            x_min,
            dx,
            bandwidth,
            r,
        ),
{
    let ws = counts_of(ds);
    assert(same_means(ds, cs)) by {
        assert forall|i: int| 0 <= i < ds.len() implies (#[trigger] cs[i]).mean == ds[i].mean by {
            assert(ds[i].mean == cs[i].mean);
        }
    }
    if is_kernel_density(powf, exp, cs, ws, n, x_min, dx, bandwidth, r) {
        lemma_kernel_density_looks_at_means(powf, exp, cs, ds, ws, n, x_min, dx, bandwidth, r);
    }
    if is_kernel_density(powf, exp, ds, ws, n, x_min, dx, bandwidth, r) {
        lemma_kernel_density_looks_at_means(powf, exp, ds, cs, ws, n, x_min, dx, bandwidth, r);
    }
}

/// A value whose weight is an integer power of it is entered with that weight.
pub proof fn law_integer_power_is_entered_as_it_is(value: Binary64, power: int)
    requires
        !value.nan(),
        0 < power <= 2 * BLOCK,
    ensures
        weighted_entry_of(Some(value), Some(whole(power))) == Some(
            Entry::Weighted(value, power as u64),
        ),
{
    lemma_constants();
    law_whole_is_exact(power);
    law_integer_weight_is_taken_as_it_is(power);
    assert(power * unity() > 0) by (nonlinear_arith)
        requires
            power > 0,
            unity() > 0,
    ;
}

/// Where the powers of the means are integers, centroids that hold each value as often as its power
/// says are written with the weights of the query, up to two to the power of 53.
pub proof fn law_integer_powers_are_written_with_the_query_weights(
    cs: Seq<Centroid>,
    ds: Seq<Centroid>,
    weight_power: Binary64,
    integers: Seq<int>,
)
    requires
        !plain(weight_power),
        same_means(cs, ds),
        integers.len() == cs.len(),
        forall|i: int|
            0 <= i < cs.len() ==> {
                &&& 0 <= #[trigger] integers[i] <= 2 * BLOCK
                &&& cs[i].weight <= 2 * BLOCK
                &&& ds[i].weight == cs[i].weight * integers[i]
                &&& ds[i].weight <= 2 * BLOCK
            },
    ensures
        written_with(
            cs,
            ds,
            weight_power,
            Seq::new(integers.len(), |i: int| whole(integers[i])),
        ),
{
    let powers = Seq::new(integers.len(), |i: int| whole(integers[i]));
    let xs = counts_of(ds);
    let ys = weights_of(cs, weight_power, powers);
    assert forall|i: int| 0 <= i < xs.len() implies #[trigger] xs[i] == ys[i] by {
        assert(0 <= integers[i]);
        law_whole_multiplies(cs[i].weight as int, integers[i]);
    }
    assert(xs =~= ys);
}

} // verus!
