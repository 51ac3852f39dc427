//! The share of values up to a given value.

use vstd::prelude::*;

use crate::binary64::arithmetic::{difference_of, product_of, quotient_of, sum_of};
use crate::binary64::number::{of, HALF};
use crate::binary64::Binary64;
use crate::cells::{clamp, clamped, middle, middle_of};
use crate::digest::{Centroid, InternalTDigest, TDigest, TDigestView};
use crate::weights::{
    centroid_weights, is_plain, plain, raise_means, raised, total, total_of, weights_of,
};

verus! {

/// How many centroids, from `i` on, come before the first one with a mean greater than
/// `value`, counted from the start of the list.
pub open spec fn reach_from(cs: Seq<Centroid>, value: Binary64, i: int) -> int
    decreases cs.len() - i,
{
    if i < 0 || i >= cs.len() || value.lt(cs[i].mean) {
        i
    } else {
        reach_from(cs, value, i + 1)
    }
}

/// How many centroids come before the first one with a mean greater than `value`.
pub open spec fn reach(cs: Seq<Centroid>, value: Binary64) -> int {
    reach_from(cs, value, 0)
}

/// `fraction` of a weight, on top of the weight before it; `otherwise` where that makes no
/// number.
pub open spec fn part_of(
    before: Binary64,
    weight: Binary64,
    fraction: Binary64,
    otherwise: Binary64,
) -> Binary64 {
    clamped(sum_of(before, product_of(weight, fraction)), before, sum_of(before, weight), otherwise)
}

/// The weight up to `value`, which lies from the mean of centroid `k - 1` on and before that of
/// centroid `k`. Half of the weight of a centroid lies evenly on each side of its mean.
pub open spec fn cumulative_between(
    cs: Seq<Centroid>,
    ws: Seq<Binary64>,
    value: Binary64,
    k: int,
) -> Binary64 {
    let low = cs[k - 1].mean;
    let high = cs[k].mean;
    let gap = difference_of(high, low);
    let before = total_of(ws.take(k - 1));
    let reached = sum_of(before, ws[k - 1]);
    if value.lt(middle_of(low, high)) {
        part_of(
            before,
            ws[k - 1],
            sum_of(of(HALF), quotient_of(difference_of(value, low), gap)),
            reached,
        )
    } else if middle_of(low, high).lt(value) {
        part_of(
            reached,
            ws[k],
            difference_of(of(HALF), quotient_of(difference_of(high, value), gap)),
            reached,
        )
    } else {
        reached
    }
}

/// The weight of the centroids up to `value`: nothing before the first mean, everything from
/// the last mean on.
pub open spec fn cumulative_of(cs: Seq<Centroid>, ws: Seq<Binary64>, value: Binary64) -> Binary64 {
    let k = reach(cs, value);
    if k <= 0 {
        of(0)
    } else if k >= cs.len() {
        total_of(ws)
    } else {
        cumulative_between(cs, ws, value, k)
    }
}

/// `part` as a share of `all`, zero where there is nothing.
pub open spec fn share_of(part: Binary64, all: Binary64) -> Binary64 {
    if all.same(of(0)) {
        of(0)
    } else {
        quotient_of(part, all)
    }
}

/// The share of the weight of the centroids up to `value`.
pub open spec fn cdf_of(cs: Seq<Centroid>, ws: Seq<Binary64>, value: Binary64) -> Binary64 {
    share_of(cumulative_of(cs, ws, value), total_of(ws))
}

/// The count of centroids up to a value lies between zero and the number of centroids.
pub proof fn lemma_reach_bounds(cs: Seq<Centroid>, value: Binary64, i: int)
    requires
        0 <= i <= cs.len(),
    ensures
        i <= reach_from(cs, value, i) <= cs.len(),
        reach_from(cs, value, i) < cs.len() ==> value.lt(cs[reach_from(cs, value, i)].mean),
        forall|j: int| i <= j < reach_from(cs, value, i) ==> !value.lt(#[trigger] cs[j].mean),
    decreases cs.len() - i,
{
    if i < cs.len() && !value.lt(cs[i].mean) {
        lemma_reach_bounds(cs, value, i + 1);
    }
}

/// `fraction` of a weight, on top of the weight before it.
fn part(before: Binary64, weight: Binary64, fraction: Binary64, otherwise: Binary64) -> (r: Binary64)
    ensures
        r == part_of(before, weight, fraction, otherwise),
{
    clamp(before.plus(weight.times(fraction)), before, before.plus(weight), otherwise)
}

/// The weight of the centroids up to `value`, and the weight of all centroids.
pub fn cumulative_with_weights(
    centroids: &Vec<Centroid>,
    weights: &Vec<Binary64>,
    value: Binary64,
) -> (r: (Binary64, Binary64))
    requires
        weights.len() == centroids.len(),
    ensures
        r.0 == cumulative_of(centroids@, weights@, value),
        r.1 == total_of(weights@),
{
    let n: usize = centroids.len();
    let mut before: Binary64 = Binary64::zeroed();
    let mut reached: Binary64 = Binary64::zeroed();
    let mut k: usize = 0;
    assert(weights@.take(0) == Seq::<Binary64>::empty());
    while k < n && !value.less(centroids[k].mean)
        invariant
            k <= n,
            n == centroids.len(),
            n == weights.len(),
            k > 0 ==> before == total_of(weights@.take(k - 1)),
            k > 0 ==> reached == sum_of(before, weights@[k - 1]),
            reached == total_of(weights@.take(k as int)),
            reach(centroids@, value) == reach_from(centroids@, value, k as int),
        decreases n - k,
    {
        assert(weights@.take(k + 1).drop_last() == weights@.take(k as int));
        before = reached;
        reached = reached.plus(weights[k]);
        k = k + 1;
    }
    let all: Binary64 = total(weights);
    if k == 0 {
        return (Binary64::zeroed(), all);
    }
    if k == n {
        return (all, all);
    }
    let low: Binary64 = centroids[k - 1].mean;
    let high: Binary64 = centroids[k].mean;
    let edge: Binary64 = middle(low, high);
    let half: Binary64 = Binary64::from_bits(HALF);
    let cumulative: Binary64 = if value.less(edge) {
        let fraction: Binary64 = half.plus(value.minus(low).over(high.minus(low)));
        part(before, weights[k - 1], fraction, reached)
    } else if edge.less(value) {
        let fraction: Binary64 = half.minus(high.minus(value).over(high.minus(low)));
        part(reached, weights[k], fraction, reached)
    } else {
        reached
    };
    (cumulative, all)
}

/// The weight of the centroids up to `value`, and the weight of all, each centroid weighted by
/// its mean raised to the weight power. `powers` holds those powers; it is not looked at where
/// the weight power is zero.
pub fn _weighted_cumulative_at(
    centroids: &Vec<Centroid>,
    value: Binary64,
    weight_power: Binary64,
    powers: &Vec<Binary64>,
) -> (r: (Binary64, Binary64))
    requires
        plain(weight_power) || powers.len() == centroids.len(),
    ensures
        r.0 == cumulative_of(centroids@, weights_of(centroids@, weight_power, powers@), value),
        r.1 == total_of(weights_of(centroids@, weight_power, powers@)),
{
    let weights: Vec<Binary64> = centroid_weights(centroids, weight_power, powers);
    cumulative_with_weights(centroids, &weights, value)
}

/// `part` as a share of `all`, zero where there is nothing.
pub fn share(part: Binary64, all: Binary64) -> (r: Binary64)
    ensures
        r == share_of(part, all),
{
    if all.equals(Binary64::zeroed()) {
        Binary64::zeroed()
    } else {
        part.over(all)
    }
}

/// The share of the weight of the centroids up to `value`, each centroid weighted by its mean
/// raised to the weight power. `powers` holds those powers; it is not looked at where the weight
/// power is zero.
pub fn weighted_rank(
    centroids: &Vec<Centroid>,
    value: Binary64,
    weight_power: Binary64,
    powers: &Vec<Binary64>,
) -> (r: Binary64)
    requires
        plain(weight_power) || powers.len() == centroids.len(),
    ensures
        r == cdf_of(centroids@, weights_of(centroids@, weight_power, powers@), value),
{
    let (cumulative, all) = _weighted_cumulative_at(centroids, value, weight_power, powers);
    share(cumulative, all)
}

/// `r` is what `estimate` gave for the engine's form of the digest and the value.
pub open spec fn estimated<E: Fn(&InternalTDigest, Binary64) -> Binary64>(
    estimate: E,
    digest: TDigestView,
    value: Binary64,
    r: Binary64,
) -> bool {
    exists|internal: InternalTDigest|
        internal@ == digest.internal() && #[trigger] call_ensures(estimate, (&internal, value), r)
}

/// Approximates the quantile at the given value. The digest engine's estimate is `estimate`.
pub fn tdigest_quantile_at_value<E: Fn(&InternalTDigest, Binary64) -> Binary64>(
    value: Binary64,
    digest: &TDigest,
    estimate: E,
) -> (r: Binary64)
    requires
        forall|d: &InternalTDigest, x: Binary64| call_requires(estimate, (d, x)),
    ensures
        estimated(estimate, digest@, value, r),
{
    let internal: InternalTDigest = digest.to_internal_tdigest();
    let r: Binary64 = estimate(&internal, value);
    assert(call_ensures(estimate, (&internal, value), r));
    r
}

/// `r` is the share of the weight up to `value`: the engine's estimate where the weight power
/// is zero, and otherwise the share of the weights that the powers of the means give.
pub open spec fn ranked<
    P: Fn(Binary64, Binary64) -> Binary64,
    E: Fn(&InternalTDigest, Binary64) -> Binary64,
>(
    powf: P,
    estimate: E,
    digest: TDigestView,
    value: Binary64,
    weight_power: Binary64,
    r: Binary64,
) -> bool {
    if plain(weight_power) {
        estimated(estimate, digest, value, r)
    } else {
        exists|powers: Seq<Binary64>|
            {
                &&& #[trigger] raised(powf, digest.centroids, weight_power, powers)
                &&& r == cdf_of(
                    digest.centroids,
                    weights_of(digest.centroids, weight_power, powers),
                    value,
                )
            }
    }
}

/// Approximates the quantile at the given value, with centroids weighted by their means raised
/// to the weight power.
pub fn tdigest_quantile_at_value_weighted<
    P: Fn(Binary64, Binary64) -> Binary64,
    E: Fn(&InternalTDigest, Binary64) -> Binary64,
>(value: Binary64, digest: &TDigest, weight_power: Binary64, powf: P, estimate: E) -> (r: Binary64)
    requires
        forall|x: Binary64, p: Binary64| call_requires(powf, (x, p)),
        forall|d: &InternalTDigest, x: Binary64| call_requires(estimate, (d, x)),
    ensures
        ranked(powf, estimate, digest@, value, weight_power, r),
{
    if is_plain(weight_power) {
        return tdigest_quantile_at_value(value, digest, estimate);
    }
    let internal: InternalTDigest = digest.to_internal_tdigest();
    let powers: Vec<Binary64> = raise_means(&internal.centroids, weight_power, &powf);
    assert(raised(powf, digest@.centroids, weight_power, powers@));
    weighted_rank(&internal.centroids, value, weight_power, &powers)
}

/// The share of values up to the given value.
pub fn tdigest_approx_cdf<E: Fn(&InternalTDigest, Binary64) -> Binary64>(
    value: Binary64,
    digest: &TDigest,
    estimate: E,
) -> (r: Binary64)
    requires
        forall|d: &InternalTDigest, x: Binary64| call_requires(estimate, (d, x)),
    ensures
        estimated(estimate, digest@, value, r),
{
    tdigest_quantile_at_value(value, digest, estimate)
}

/// The share of the weight up to the given value.
pub fn tdigest_approx_cdf_weighted<
    P: Fn(Binary64, Binary64) -> Binary64,
    E: Fn(&InternalTDigest, Binary64) -> Binary64,
>(value: Binary64, digest: &TDigest, weight_power: Binary64, powf: P, estimate: E) -> (r: Binary64)
    requires
        forall|x: Binary64, p: Binary64| call_requires(powf, (x, p)),
        forall|d: &InternalTDigest, x: Binary64| call_requires(estimate, (d, x)),
    ensures
        ranked(powf, estimate, digest@, value, weight_power, r),
{
    tdigest_quantile_at_value_weighted(value, digest, weight_power, powf, estimate)
}

/// Asks for the quantile at a value.
#[derive(Clone, Copy, Debug, PartialEq, Eq, Structural)]
pub struct AccessorApproxPercentileRank {
    pub value: Binary64,
}

/// Asks for the share of values up to a value.
#[derive(Clone, Copy, Debug, PartialEq, Eq, Structural)]
pub struct AccessorApproxCdf {
    pub value: Binary64,
}

/// The quantile at the value that the accessor holds.
pub fn arrow_tdigest_approx_rank<E: Fn(&InternalTDigest, Binary64) -> Binary64>(
    sketch: &TDigest,
    accessor: AccessorApproxPercentileRank,
    estimate: E,
) -> (r: Binary64)
    requires
        forall|d: &InternalTDigest, x: Binary64| call_requires(estimate, (d, x)),
    ensures
        estimated(estimate, sketch@, accessor.value, r),
{
    tdigest_quantile_at_value(accessor.value, sketch, estimate)
}

/// The share of values up to the value that the accessor holds.
pub fn arrow_tdigest_approx_cdf<E: Fn(&InternalTDigest, Binary64) -> Binary64>(
    sketch: &TDigest,
    accessor: AccessorApproxCdf,
    estimate: E,
) -> (r: Binary64)
    requires
        forall|d: &InternalTDigest, x: Binary64| call_requires(estimate, (d, x)),
    ensures
        estimated(estimate, sketch@, accessor.value, r),
{
    tdigest_quantile_at_value(accessor.value, sketch, estimate)
}

} // verus!
