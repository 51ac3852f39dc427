//! Values at a given quantile.

use vstd::prelude::*;

use crate::binary64::arithmetic::{difference_of, product_of, quotient_of, sum_of};
use crate::binary64::number::{of, HALF, ONE};
use crate::binary64::Binary64;
use crate::cells::{clamp, clamped, lower_edge, lower_mean, middle, upper_edge, upper_mean};
use crate::digest::{Centroid, InternalTDigest, TDigest};
use crate::weights::{
    centroid_weights, counts_of, law_weight_power_zero, lemma_total_step, plain, raise_means, raised,
    total, total_of, weights_of,
};

verus! {

/// The first centroid, from `i` on, at which the running total of the weights reaches
/// `target`; the number of weights if none does.
pub open spec fn crossing(ws: Seq<Binary64>, target: Binary64, i: int) -> int
    decreases ws.len() - i,
{
    if i < 0 || i >= ws.len() {
        ws.len() as int
    } else if target.le(sum_of(total_of(ws.take(i)), ws[i])) {
        i
    } else {
        crossing(ws, target, i + 1)
    }
}

/// The crossing is where the running total first reaches the target.
pub proof fn lemma_crossing(ws: Seq<Binary64>, target: Binary64, i: int)
    requires
        0 <= i <= ws.len(),
    ensures
        i <= crossing(ws, target, i) <= ws.len(),
        crossing(ws, target, i) < ws.len() ==> target.le(
            total_of(ws.take(crossing(ws, target, i) + 1)),
        ),
        forall|j: int|
            i <= j < crossing(ws, target, i) ==> !target.le(#[trigger] total_of(ws.take(j + 1))),
    decreases ws.len() - i,
{
    if i < ws.len() {
        lemma_total_step(ws, i);
        if !target.le(sum_of(total_of(ws.take(i)), ws[i])) {
            lemma_crossing(ws, target, i + 1);
        }
    }
}

/// The value inside the cell of centroid `k` at which the running total reaches `target`. Half
/// of the centroid's weight lies evenly on each side of its mean.
pub open spec fn interpolated(
    cs: Seq<Centroid>,
    ws: Seq<Binary64>,
    target: Binary64,
    k: int,
) -> Binary64 {
    let mean = cs[k].mean;
    let fraction = quotient_of(difference_of(target, total_of(ws.take(k))), ws[k]);
    let away = difference_of(fraction, of(HALF));
    let gap = if away.lt(of(0)) {
        difference_of(mean, lower_mean(cs, k))
    } else {
        difference_of(upper_mean(cs, k), mean)
    };
    clamped(sum_of(mean, product_of(away, gap)), lower_edge(cs, k), upper_edge(cs, k), mean)
}

/// The value at quantile `q` of centroids with the given weights.
pub open spec fn quantile_of(cs: Seq<Centroid>, ws: Seq<Binary64>, q: Binary64) -> Binary64 {
    if cs.len() == 0 {
        of(0)
    } else if q.le(of(0)) {
        cs[0].mean
    } else if of(ONE).le(q) {
        cs.last().mean
    } else {
        let target = product_of(q, total_of(ws));
        let k = crossing(ws, target, 0);
        if k < cs.len() {
            interpolated(cs, ws, target, k)
        } else {
            cs.last().mean
        }
    }
}

/// The value inside the cell of centroid `k`, before which the weights add up to `cumulative`.
fn interpolate(
    centroids: &Vec<Centroid>,
    weights: &Vec<Binary64>,
    target: Binary64,
    k: usize,
    cumulative: Binary64,
) -> (r: Binary64)
    requires
        k < centroids.len(),
        weights.len() == centroids.len(),
        cumulative == total_of(weights@.take(k as int)),
    ensures
        r == interpolated(centroids@, weights@, target, k as int),
{
    let mean: Binary64 = centroids[k].mean;
    let lower: Binary64 = if k > 0 {
        centroids[k - 1].mean
    } else {
        mean
    };
    let upper: Binary64 = if k < centroids.len() - 1 {
        centroids[k + 1].mean
    } else {
        mean
    };
    let fraction: Binary64 = target.minus(cumulative).over(weights[k]);
    let away: Binary64 = fraction.minus(Binary64::from_bits(HALF));
    let gap: Binary64 = if away.less(Binary64::zeroed()) {
        mean.minus(lower)
    } else {
        upper.minus(mean)
    };
    clamp(mean.plus(away.times(gap)), middle(lower, mean), middle(mean, upper), mean)
}

/// The value at quantile `q` of centroids with the given weights.
pub fn quantile_with_weights(
    centroids: &Vec<Centroid>,
    weights: &Vec<Binary64>,
    q: Binary64,
) -> (r: Binary64)
    requires
        weights.len() == centroids.len(),
    ensures
        r == quantile_of(centroids@, weights@, q),
{
    let n: usize = centroids.len();
    if n == 0 {
        return Binary64::zeroed();
    }
    if q.at_most(Binary64::zeroed()) {
        return centroids[0].mean;
    }
    if Binary64::from_bits(ONE).at_most(q) {
        return centroids[n - 1].mean;
    }
    let target: Binary64 = q.times(total(weights));
    let mut cumulative: Binary64 = Binary64::zeroed();
    let mut i: usize = 0;
    assert(weights@.take(0) == Seq::<Binary64>::empty());
    while i < n
        invariant
            i <= n,
            n == centroids.len(),
            n == weights.len(),
            n > 0,
            !q.le(of(0)),
            !of(ONE).le(q),
            target == product_of(q, total_of(weights@)),
            cumulative == total_of(weights@.take(i as int)),
            crossing(weights@, target, 0) == crossing(weights@, target, i as int),
        decreases n - i,
    {
        let reached: Binary64 = cumulative.plus(weights[i]);
        if target.at_most(reached) {
            return interpolate(centroids, weights, target, i, cumulative);
        }
        assert(weights@.take(i + 1).drop_last() == weights@.take(i as int));
        cumulative = reached;
        i = i + 1;
    }
    centroids[n - 1].mean
}

/// The value at quantile `q`, each centroid weighted by its mean raised to the weight power.
/// `powers` holds those powers; it is not looked at where the weight power is zero.
pub fn _weighted_quantile(
    centroids: &Vec<Centroid>,
    q: Binary64,
    weight_power: Binary64,
    powers: &Vec<Binary64>,
) -> (r: Binary64)
    requires
        plain(weight_power) || powers.len() == centroids.len(),
    ensures
        r == quantile_of(centroids@, weights_of(centroids@, weight_power, powers@), q),
{
    let weights: Vec<Binary64> = centroid_weights(centroids, weight_power, powers);
    quantile_with_weights(centroids, &weights, q)
}

/// Approximates the value at the given quantile, from 0 to 1.
pub fn tdigest_quantile(quantile: Binary64, digest: &TDigest) -> (r: Binary64)
    ensures
        r == quantile_of(digest@.centroids, counts_of(digest@.centroids), quantile),
{
    let internal: InternalTDigest = digest.to_internal_tdigest();
    let powers: Vec<Binary64> = Vec::new();
    proof {
        law_weight_power_zero(digest@.centroids, of(0), powers@);
    }
    _weighted_quantile(&internal.centroids, quantile, Binary64::zeroed(), &powers)
}

/// Approximates the value at the given quantile, with centroids weighted by their means raised
/// to the weight power. The powers come from `powf`.
pub fn tdigest_quantile_weighted<P: Fn(Binary64, Binary64) -> Binary64>(
    quantile: Binary64,
    digest: &TDigest,
    weight_power: Binary64,
    powf: P,
) -> (r: Binary64)
    requires
        forall|x: Binary64, p: Binary64| call_requires(powf, (x, p)),
    ensures
        exists|powers: Seq<Binary64>|
            {
                &&& #[trigger] raised(powf, digest@.centroids, weight_power, powers)
                &&& r == quantile_of(
                    digest@.centroids,
                    weights_of(digest@.centroids, weight_power, powers),
                    quantile,
                )
            },
{
    let internal: InternalTDigest = digest.to_internal_tdigest();
    let powers: Vec<Binary64> = raise_means(&internal.centroids, weight_power, &powf);
    let r: Binary64 = _weighted_quantile(&internal.centroids, quantile, weight_power, &powers);
    assert(raised(powf, digest@.centroids, weight_power, powers@));
    r
}

/// Asks for the value at a percentile.
#[derive(Clone, Copy, Debug, PartialEq, Eq, Structural)]
pub struct AccessorApproxPercentile {
    pub percentile: Binary64,
}

/// The value at the percentile that the accessor asks for.
pub fn arrow_tdigest_approx_percentile(
    sketch: &TDigest,
    accessor: AccessorApproxPercentile,
) -> (r: Binary64)
    ensures
        r == quantile_of(sketch@.centroids, counts_of(sketch@.centroids), accessor.percentile),
{
    tdigest_quantile(accessor.percentile, sketch)
}

} // verus!
