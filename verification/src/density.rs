//! Densities of a digest over an interval, as percentages per bin.

use vstd::prelude::*;

use crate::binary64::arithmetic::{
    difference_of, product_of, quotient_of, sum_of, whole,
};
use crate::binary64::number::{of, HUNDRED};
use crate::binary64::Binary64;
use crate::digest::{Centroid, InternalTDigest, TDigest, TDigestView};
use crate::distribution::{cumulative_of, cumulative_with_weights, estimated};
use crate::histogram::{zero_row, zeros};
use crate::weights::{
    centroid_weights, is_plain, plain, raise_means, raised, total_of, weights_of,
};

verus! {

/// The width of one of `n` bins between `x_min` and `x_max`.
pub open spec fn step_of(n: int, x_min: Binary64, x_max: Binary64) -> Binary64 {
    quotient_of(difference_of(x_max, x_min), whole(n))
}

/// The lower edge of bin `k`.
pub open spec fn grid_at(x_min: Binary64, dx: Binary64, k: int) -> Binary64 {
    sum_of(x_min, product_of(whole(k), dx))
}

/// A share as a percentage.
pub open spec fn percent_of(x: Binary64) -> Binary64 {
    product_of(x, of(HUNDRED))
}

/// The percentage of the weight of the centroids between two values.
pub open spec fn weighted_bin(
    cs: Seq<Centroid>,
    ws: Seq<Binary64>,
    low: Binary64,
    high: Binary64,
) -> Binary64 {
    if total_of(ws).same(of(0)) {
        of(0)
    } else {
        percent_of(
            quotient_of(
                difference_of(cumulative_of(cs, ws, high), cumulative_of(cs, ws, low)),
                total_of(ws),
            ),
        )
    }
}

/// The percentage of the weight in each of `n` bins.
pub open spec fn weighted_density_of(
    cs: Seq<Centroid>,
    ws: Seq<Binary64>,
    n: int,
    x_min: Binary64,
    dx: Binary64,
) -> Seq<Binary64> {
    Seq::new(
        n as nat,
        |i: int| weighted_bin(cs, ws, grid_at(x_min, dx, i), grid_at(x_min, dx, i + 1)),
    )
}

/// The percentage between two shares.
pub open spec fn percent_between(low: Binary64, high: Binary64) -> Binary64 {
    percent_of(difference_of(high, low))
}

/// `lows` and `highs` hold what `estimate` gave for the digest at the lower and at the upper
/// edge of each of `n` bins.
pub open spec fn sampled<E: Fn(&InternalTDigest, Binary64) -> Binary64>(
    estimate: E,
    digest: TDigestView,
    n: int,
    x_min: Binary64,
    dx: Binary64,
    lows: Seq<Binary64>,
    highs: Seq<Binary64>,
) -> bool {
    &&& lows.len() == n
    &&& highs.len() == n
    &&& forall|i: int|
        #![trigger lows[i]]
        #![trigger highs[i]]
        0 <= i < n ==> {
            &&& estimated(estimate, digest, grid_at(x_min, dx, i), lows[i])
            &&& estimated(estimate, digest, grid_at(x_min, dx, i + 1), highs[i])
        }
}

/// The percentage in each bin, from the shares at its edges.
pub open spec fn density_between(lows: Seq<Binary64>, highs: Seq<Binary64>) -> Seq<Binary64> {
    Seq::new(lows.len(), |i: int| percent_between(lows[i], highs[i]))
}

/// `r` is the density of the digest over `num_points` bins between `x_min` and `x_max`, from
/// the engine's estimates.
pub open spec fn is_estimated_density<E: Fn(&InternalTDigest, Binary64) -> Binary64>(
    estimate: E,
    digest: TDigestView,
    num_points: i32,
    x_min: Binary64,
    x_max: Binary64,
    r: Seq<Binary64>,
) -> bool {
    let n = num_points as int;
    let dx = step_of(n, x_min, x_max);
    if n <= 0 {
        r.len() == 0
    } else if digest.count == 0 {
        r == zeros(n)
    } else {
        exists|lows: Seq<Binary64>, highs: Seq<Binary64>|
            #[trigger] sampled(estimate, digest, n, x_min, dx, lows, highs) && r
                == density_between(lows, highs)
    }
}

/// `r` is the density of the digest over `num_points` bins between `x_min` and `x_max`, from
/// the weights that the powers of the means give.
pub open spec fn is_weighted_density<P: Fn(Binary64, Binary64) -> Binary64>(
    powf: P,
    digest: TDigestView,
    num_points: i32,
    x_min: Binary64,
    x_max: Binary64,
    weight_power: Binary64,
    r: Seq<Binary64>,
) -> bool {
    let n = num_points as int;
    let dx = step_of(n, x_min, x_max);
    if n <= 0 {
        r.len() == 0
    } else if digest.count == 0 {
        r == zeros(n)
    } else {
        exists|powers: Seq<Binary64>|
            {
                &&& #[trigger] raised(powf, digest.centroids, weight_power, powers)
                &&& r == weighted_density_of(
                    digest.centroids,
                    weights_of(digest.centroids, weight_power, powers),
                    n,
                    x_min,
                    dx,
                )
            }
    }
}

/// The width of one of `n` bins between `x_min` and `x_max`.
pub fn step(n: usize, x_min: Binary64, x_max: Binary64) -> (r: Binary64)
    ensures
        r == step_of(n as int, x_min, x_max),
{
    x_max.minus(x_min).over(Binary64::from_count(n as u64))
}

/// The lower edge of bin `k`.
fn grid(x_min: Binary64, dx: Binary64, k: u64) -> (r: Binary64)
    ensures
        r == grid_at(x_min, dx, k as int),
{
    x_min.plus(Binary64::from_count(k).times(dx))
}

/// The percentage in each bin, from the shares at its edges.
pub fn density_from_shares(lows: &Vec<Binary64>, highs: &Vec<Binary64>) -> (r: Vec<Binary64>)
    requires
        lows.len() == highs.len(),
    ensures
        r@ == density_between(lows@, highs@),
{
    let mut out: Vec<Binary64> = Vec::new();
    let mut i: usize = 0;
    while i < lows.len()
        invariant
            i <= lows.len(),
            lows.len() == highs.len(),
            out@ == density_between(lows@, highs@).take(i as int),
        decreases lows.len() - i,
    {
        out.push(highs[i].minus(lows[i]).times(Binary64::from_bits(HUNDRED)));
        i = i + 1;
        assert(out@ == density_between(lows@, highs@).take(i as int));
    }
    assert(out@ == density_between(lows@, highs@));
    out
}

/// The percentage of the weight in each of `n` bins.
pub fn weighted_density(
    centroids: &Vec<Centroid>,
    weights: &Vec<Binary64>,
    n: usize,
    x_min: Binary64,
    dx: Binary64,
) -> (r: Vec<Binary64>)
    requires
        weights.len() == centroids.len(),
        n < u64::MAX,
    ensures
        r@ == weighted_density_of(centroids@, weights@, n as int, x_min, dx),
{
    let ghost all = weighted_density_of(centroids@, weights@, n as int, x_min, dx);
    let mut out: Vec<Binary64> = Vec::new();
    let mut i: usize = 0;
    while i < n
        invariant
            i <= n,
            n < u64::MAX,
            weights.len() == centroids.len(),
            all == weighted_density_of(centroids@, weights@, n as int, x_min, dx),
            out@ == all.take(i as int),
        decreases n - i,
    {
        let x_lo: Binary64 = grid(x_min, dx, i as u64);
        let x_hi: Binary64 = grid(x_min, dx, i as u64 + 1);
        let (cum_lo, total) = cumulative_with_weights(centroids, weights, x_lo);
        let (cum_hi, _) = cumulative_with_weights(centroids, weights, x_hi);
        let bin: Binary64 = if total.equals(Binary64::zeroed()) {
            Binary64::zeroed()
        } else {
            cum_hi.minus(cum_lo).over(total).times(Binary64::from_bits(HUNDRED))
        };
        out.push(bin);
        i = i + 1;
        assert(out@ == all.take(i as int));
    }
    assert(out@ == all);
    out
}

/// The percentage of the digest in each of `num_points` bins between `x_min` and `x_max`. The
/// powers of the means come from `powf`, the engine's estimates from `estimate`; only those
/// that the weight power asks for are used.
pub fn _tdigest_to_pdf_inner<
    P: Fn(Binary64, Binary64) -> Binary64,
    E: Fn(&InternalTDigest, Binary64) -> Binary64,
>(
    sketch: &TDigest,
    num_points: i32,
    x_min: Binary64,
    x_max: Binary64,
    weight_power: Binary64,
    powf: P,
    estimate: E,
) -> (r: Vec<Binary64>)
    requires
        forall|x: Binary64, p: Binary64| call_requires(powf, (x, p)),
        forall|d: &InternalTDigest, x: Binary64| call_requires(estimate, (d, x)),
    ensures
        plain(weight_power) ==> is_estimated_density(
            estimate,
            sketch@,
            num_points,
            x_min,
            x_max,
            r@,
        ),
        !plain(weight_power) ==> is_weighted_density(
            powf,
            sketch@,
            num_points,
            x_min,
            x_max,
            weight_power,
            r@,
        ),
{
    if num_points <= 0 {
        return Vec::new();
    }
    let n: usize = num_points as usize;
    if sketch.count == 0 {
        return zero_row(n);
    }
    let dx: Binary64 = step(n, x_min, x_max);
    let internal: InternalTDigest = sketch.to_internal_tdigest();
    if is_plain(weight_power) {
        let mut lows: Vec<Binary64> = Vec::new();
        let mut highs: Vec<Binary64> = Vec::new();
        let mut i: usize = 0;
        while i < n
            invariant
                i <= n,
                n == num_points,
                internal@ == sketch@.internal(),
                forall|d: &InternalTDigest, x: Binary64| call_requires(estimate, (d, x)),
                sampled(estimate, sketch@, i as int, x_min, dx, lows@, highs@),
            decreases n - i,
        {
            let x_lo: Binary64 = grid(x_min, dx, i as u64);
            let x_hi: Binary64 = grid(x_min, dx, i as u64 + 1);
            let cdf_lo: Binary64 = estimate(&internal, x_lo);
            let cdf_hi: Binary64 = estimate(&internal, x_hi);
            assert(call_ensures(estimate, (&internal, x_lo), cdf_lo));
            assert(call_ensures(estimate, (&internal, x_hi), cdf_hi));
            lows.push(cdf_lo);
            highs.push(cdf_hi);
            i = i + 1;
        }
        assert(sampled(estimate, sketch@, n as int, x_min, dx, lows@, highs@));
        density_from_shares(&lows, &highs)
    } else {
        let powers: Vec<Binary64> = raise_means(&internal.centroids, weight_power, &powf);
        let weights: Vec<Binary64> = centroid_weights(&internal.centroids, weight_power, &powers);
        assert(raised(powf, sketch@.centroids, weight_power, powers@));
        weighted_density(&internal.centroids, &weights, n, x_min, dx)
    }
}

/// The percentage of the digest in each of `num_points` bins between `x_min` and `x_max`.
pub fn tdigest_to_pdf<E: Fn(&InternalTDigest, Binary64) -> Binary64>(
    sketch: &TDigest,
    num_points: i32,
    x_min: Binary64,
    x_max: Binary64,
    estimate: E,
) -> (r: Vec<Binary64>)
    requires
        forall|d: &InternalTDigest, x: Binary64| call_requires(estimate, (d, x)),
    ensures
        is_estimated_density(estimate, sketch@, num_points, x_min, x_max, r@),
{
    // A weight power of zero asks for no powers.
    let powf = |x: Binary64, p: Binary64| -> (r: Binary64) { x };
    _tdigest_to_pdf_inner(sketch, num_points, x_min, x_max, Binary64::zeroed(), powf, estimate)
}

/// The percentage of the weight in each of `num_points` bins between `x_min` and `x_max`,
/// centroids weighted by their means raised to the weight power.
pub fn tdigest_to_pdf_weighted<
    P: Fn(Binary64, Binary64) -> Binary64,
    E: Fn(&InternalTDigest, Binary64) -> Binary64,
>(
    sketch: &TDigest,
    num_points: i32,
    x_min: Binary64,
    x_max: Binary64,
    weight_power: Binary64,
    powf: P,
    estimate: E,
) -> (r: Vec<Binary64>)
    requires
        forall|x: Binary64, p: Binary64| call_requires(powf, (x, p)),
        forall|d: &InternalTDigest, x: Binary64| call_requires(estimate, (d, x)),
    ensures
        plain(weight_power) ==> is_estimated_density(
            estimate,
            sketch@,
            num_points,
            x_min,
            x_max,
            r@,
        ),
        !plain(weight_power) ==> is_weighted_density(
            powf,
            sketch@,
            num_points,
            x_min,
            x_max,
            weight_power,
            r@,
        ),
{
    _tdigest_to_pdf_inner(sketch, num_points, x_min, x_max, weight_power, powf, estimate)
}

} // verus!
