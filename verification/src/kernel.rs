//! Kernel density estimates of a digest: a normal curve around each centroid.

use vstd::prelude::*;

use crate::binary64::arithmetic::{
    difference_of, product_of, quotient_of, root_of, sum_of, whole,
};
use crate::binary64::number::{of, opposite, HALF, HUNDRED, TWO};
use crate::binary64::Binary64;
use crate::density::{percent_of, step, step_of};
use crate::digest::{Centroid, InternalTDigest, TDigest, TDigestView};
use crate::histogram::{zero_row, zeros};
use crate::weights::{
    centroid_weights, counts_of, law_weight_power_zero, plain, raise_means, raised, total, total_of,
    weights_of,
};

verus! {

/// The bits of 1.06, the factor of the rule of thumb for the bandwidth.
pub const RULE_FACTOR: u64 = 0x3FF0_F5C2_8F5C_28F6;

/// The bits of -0.2, the exponent of the rule of thumb.
pub const RULE_EXPONENT: u64 = 0xBFC9_9999_9999_999A;

/// The bits of two pi.
pub const TWO_PI: u64 = 0x4019_21FB_5444_2D18;

/// The means of the centroids, each times its weight.
pub open spec fn mean_terms(cs: Seq<Centroid>, ws: Seq<Binary64>) -> Seq<Binary64> {
    Seq::new(cs.len(), |i: int| product_of(cs[i].mean, ws[i]))
}

/// The weighted mean of the centroids.
pub open spec fn mean_of(cs: Seq<Centroid>, ws: Seq<Binary64>) -> Binary64 {
    quotient_of(total_of(mean_terms(cs, ws)), total_of(ws))
}

/// `x * x`.
pub open spec fn squared(x: Binary64) -> Binary64 {
    product_of(x, x)
}

/// The squared distances of the means from `center`, each times its weight.
pub open spec fn variance_terms(
    cs: Seq<Centroid>,
    ws: Seq<Binary64>,
    center: Binary64,
) -> Seq<Binary64> {
    Seq::new(
        cs.len(),
        |i: int| product_of(ws[i], squared(difference_of(cs[i].mean, center))),
    )
}

/// The weighted variance of the centroids around `center`.
pub open spec fn variance_of(cs: Seq<Centroid>, ws: Seq<Binary64>, center: Binary64) -> Binary64 {
    quotient_of(total_of(variance_terms(cs, ws, center)), total_of(ws))
}

/// The squares of the weights.
pub open spec fn square_terms(ws: Seq<Binary64>) -> Seq<Binary64> {
    Seq::new(ws.len(), |i: int| squared(ws[i]))
}

/// The number of equal weights that would spread as much as the given ones.
pub open spec fn effective_count_of(ws: Seq<Binary64>) -> Binary64 {
    quotient_of(squared(total_of(ws)), total_of(square_terms(ws)))
}

/// The bandwidth of the rule of thumb; `power` is the effective count raised to -0.2. Where
/// the rule gives nothing usable, half a bin.
pub open spec fn rule_of_thumb(
    cs: Seq<Centroid>,
    ws: Seq<Binary64>,
    dx: Binary64,
    power: Binary64,
) -> Binary64 {
    let deviation = root_of(variance_of(cs, ws, mean_of(cs, ws)));
    let rule = product_of(product_of(of(RULE_FACTOR), deviation), power);
    if rule.le(of(0)) || !rule.finite() {
        quotient_of(dx, of(TWO))
    } else {
        rule
    }
}

/// The middle of bin `i`.
pub open spec fn center_at(x_min: Binary64, dx: Binary64, i: int) -> Binary64 {
    sum_of(x_min, product_of(sum_of(whole(i), of(HALF)), dx))
}

/// The exponent of the normal curve around a mean, at `x`.
pub open spec fn exponent_at(x: Binary64, mean: Binary64, bandwidth: Binary64) -> Binary64 {
    let u = quotient_of(difference_of(x, mean), bandwidth);
    quotient_of(product_of(opposite(u), u), of(TWO))
}

/// The normal curve, from its exponential.
pub open spec fn normal_of(exponential: Binary64) -> Binary64 {
    quotient_of(exponential, root_of(of(TWO_PI)))
}

/// The normal curves of all centroids, each times its weight; `row` holds the exponential for each
/// centroid.
pub open spec fn kernel_terms(ws: Seq<Binary64>, row: Seq<Binary64>) -> Seq<Binary64> {
    Seq::new(ws.len(), |j: int| product_of(ws[j], normal_of(row[j])))
}

/// The percentage in a bin; `row` holds the exponential for each centroid.
pub open spec fn kernel_bin(
    ws: Seq<Binary64>,
    row: Seq<Binary64>,
    bandwidth: Binary64,
    dx: Binary64,
) -> Binary64 {
    let sum = total_of(kernel_terms(ws, row));
    percent_of(product_of(quotient_of(sum, product_of(total_of(ws), bandwidth)), dx))
}

/// The percentage in each bin; `rows` holds the exponentials bin by bin.
pub open spec fn kernel_density_of(
    ws: Seq<Binary64>,
    rows: Seq<Seq<Binary64>>,
    bandwidth: Binary64,
    dx: Binary64,
) -> Seq<Binary64> {
    Seq::new(rows.len(), |i: int| kernel_bin(ws, rows[i], bandwidth, dx))
}

/// `row` holds what `exp` gave for the exponents of all centroids at `x`.
pub open spec fn raised_row<X: Fn(Binary64) -> Binary64>(
    exp: X,
    cs: Seq<Centroid>,
    x: Binary64,
    bandwidth: Binary64,
    row: Seq<Binary64>,
) -> bool {
    &&& row.len() == cs.len()
    &&& forall|j: int|
        0 <= j < cs.len() ==> call_ensures(
            exp,
            (exponent_at(x, cs[j].mean, bandwidth),),
            #[trigger] row[j],
        )
}

/// `rows` holds what `exp` gave for the middle of each of `n` bins.
pub open spec fn raised_rows<X: Fn(Binary64) -> Binary64>(
    exp: X,
    cs: Seq<Centroid>,
    n: int,
    x_min: Binary64,
    dx: Binary64,
    bandwidth: Binary64,
    rows: Seq<Seq<Binary64>>,
) -> bool {
    &&& rows.len() == n
    &&& forall|i: int|
        0 <= i < n ==> raised_row(exp, cs, center_at(x_min, dx, i), bandwidth, #[trigger] rows[i])
}

/// `bw` is the bandwidth that is used: the given one if it is positive, or else that of the
/// rule of thumb with a power that `powf` gave.
pub open spec fn is_bandwidth<P: Fn(Binary64, Binary64) -> Binary64>(
    powf: P,
    cs: Seq<Centroid>,
    ws: Seq<Binary64>,
    dx: Binary64,
    bandwidth: Binary64,
    bw: Binary64,
) -> bool {
    if bandwidth.le(of(0)) {
        exists|power: Binary64|
            {
                &&& #[trigger] call_ensures(powf, (effective_count_of(ws), of(RULE_EXPONENT)), power)
                &&& bw == rule_of_thumb(cs, ws, dx, power)
            }
    } else {
        bw == bandwidth
    }
}

/// `r` is the kernel density of centroids with the given weights over `n` bins.
pub open spec fn is_kernel_density<
    P: Fn(Binary64, Binary64) -> Binary64,
    X: Fn(Binary64) -> Binary64,
>(
    powf: P,
    exp: X,
    cs: Seq<Centroid>,
    ws: Seq<Binary64>,
    n: int,
    x_min: Binary64,
    dx: Binary64,
    bandwidth: Binary64,
    r: Seq<Binary64>,
) -> bool {
    if total_of(ws).same(of(0)) {
        r == zeros(n)
    } else {
        exists|bw: Binary64, rows: Seq<Seq<Binary64>>|
            {
                &&& #[trigger] is_bandwidth(powf, cs, ws, dx, bandwidth, bw)
                &&& #[trigger] raised_rows(exp, cs, n, x_min, dx, bw, rows)
                &&& r == kernel_density_of(ws, rows, bw, dx)
            }
    }
}

/// `r` is the kernel density of a digest over `num_points` bins between `x_min` and `x_max`,
/// its centroids having the given weights.
pub open spec fn is_digest_kernel_density<
    P: Fn(Binary64, Binary64) -> Binary64,
    X: Fn(Binary64) -> Binary64,
>(
    powf: P,
    exp: X,
    digest: TDigestView,
    ws: Seq<Binary64>,
    num_points: i32,
    x_min: Binary64,
    x_max: Binary64,
    bandwidth: Binary64,
    r: Seq<Binary64>,
) -> bool {
    let n = num_points as int;
    if n <= 0 {
        r.len() == 0
    } else if digest.count == 0 {
        r == zeros(n)
    } else {
        is_kernel_density(
            powf,
            exp,
            digest.centroids,
            ws,
            n,
            x_min,
            step_of(n, x_min, x_max),
            bandwidth,
            r,
        )
    }
}

/// The weighted mean of the centroids.
pub fn weighted_mean(centroids: &Vec<Centroid>, weights: &Vec<Binary64>) -> (r: Binary64)
    requires
        weights.len() == centroids.len(),
    ensures
        r == mean_of(centroids@, weights@),
{
    let ghost all = mean_terms(centroids@, weights@);
    let mut terms: Vec<Binary64> = Vec::new();
    let mut i: usize = 0;
    while i < centroids.len()
        invariant
            i <= centroids.len(),
            weights.len() == centroids.len(),
            all == mean_terms(centroids@, weights@),
            terms@ == all.take(i as int),
        decreases centroids.len() - i,
    {
        terms.push(centroids[i].mean.times(weights[i]));
        i = i + 1;
        assert(terms@ == all.take(i as int));
    }
    assert(terms@ == all);
    total(&terms).over(total(weights))
}

/// The weighted variance of the centroids around `center`.
pub fn weighted_variance(
    centroids: &Vec<Centroid>,
    weights: &Vec<Binary64>,
    center: Binary64,
) -> (r: Binary64)
    requires
        weights.len() == centroids.len(),
    ensures
        r == variance_of(centroids@, weights@, center),
{
    let ghost all = variance_terms(centroids@, weights@, center);
    let mut terms: Vec<Binary64> = Vec::new();
    let mut i: usize = 0;
    while i < centroids.len()
        invariant
            i <= centroids.len(),
            weights.len() == centroids.len(),
            all == variance_terms(centroids@, weights@, center),
            terms@ == all.take(i as int),
        decreases centroids.len() - i,
    {
        let distance: Binary64 = centroids[i].mean.minus(center);
        terms.push(weights[i].times(distance.times(distance)));
        i = i + 1;
        assert(terms@ == all.take(i as int));
    }
    assert(terms@ == all);
    total(&terms).over(total(weights))
}

/// The number of equal weights that would spread as much as the given ones.
pub fn effective_count(weights: &Vec<Binary64>) -> (r: Binary64)
    ensures
        r == effective_count_of(weights@),
{
    let ghost all = square_terms(weights@);
    let mut terms: Vec<Binary64> = Vec::new();
    let mut i: usize = 0;
    while i < weights.len()
        invariant
            i <= weights.len(),
            all == square_terms(weights@),
            terms@ == all.take(i as int),
        decreases weights.len() - i,
    {
        terms.push(weights[i].times(weights[i]));
        i = i + 1;
        assert(terms@ == all.take(i as int));
    }
    assert(terms@ == all);
    let sum: Binary64 = total(weights);
    sum.times(sum).over(total(&terms))
}

/// The bandwidth of the rule of thumb; `power` is the effective count raised to -0.2.
pub fn thumb_bandwidth(
    centroids: &Vec<Centroid>,
    weights: &Vec<Binary64>,
    dx: Binary64,
    power: Binary64,
) -> (r: Binary64)
    requires
        weights.len() == centroids.len(),
    ensures
        r == rule_of_thumb(centroids@, weights@, dx, power),
{
    let center: Binary64 = weighted_mean(centroids, weights);
    let deviation: Binary64 = weighted_variance(centroids, weights, center).sqrt();
    let rule: Binary64 = Binary64::from_bits(RULE_FACTOR).times(deviation).times(power);
    if rule.at_most(Binary64::zeroed()) || !rule.is_finite() {
        dx.over(Binary64::from_bits(TWO))
    } else {
        rule
    }
}

/// The normal curve, from its exponential.
pub fn gaussian_pdf(exponential: Binary64) -> (r: Binary64)
    ensures
        r == normal_of(exponential),
{
    exponential.over(Binary64::from_bits(TWO_PI).sqrt())
}

/// The exponent of the normal curve around a mean, at `x`.
pub fn kernel_exponent(x: Binary64, mean: Binary64, bandwidth: Binary64) -> (r: Binary64)
    ensures
        r == exponent_at(x, mean, bandwidth),
{
    let u: Binary64 = x.minus(mean).over(bandwidth);
    u.negated().times(u).over(Binary64::from_bits(TWO))
}

/// The percentage in one bin; `row` holds the exponential for each centroid.
pub fn kernel_percentage(
    weights: &Vec<Binary64>,
    row: &Vec<Binary64>,
    bandwidth: Binary64,
    dx: Binary64,
) -> (r: Binary64)
    requires
        row.len() == weights.len(),
    ensures
        r == kernel_bin(weights@, row@, bandwidth, dx),
{
    let ghost all = kernel_terms(weights@, row@);
    let mut terms: Vec<Binary64> = Vec::new();
    let mut j: usize = 0;
    while j < weights.len()
        invariant
            j <= weights.len(),
            row.len() == weights.len(),
            all == kernel_terms(weights@, row@),
            terms@ == all.take(j as int),
        decreases weights.len() - j,
    {
        terms.push(weights[j].times(gaussian_pdf(row[j])));
        j = j + 1;
        assert(terms@ == all.take(j as int));
    }
    assert(terms@ == all);
    let scale: Binary64 = total(weights).times(bandwidth);
    total(&terms).over(scale).times(dx).times(Binary64::from_bits(HUNDRED))
}

/// The exponentials of all centroids at `x`, computed by `exp`.
fn exponentials<X: Fn(Binary64) -> Binary64>(
    centroids: &Vec<Centroid>,
    x: Binary64,
    bandwidth: Binary64,
    exp: &X,
) -> (r: Vec<Binary64>)
    requires
        forall|e: Binary64| call_requires(*exp, (e,)),
    ensures
        raised_row(*exp, centroids@, x, bandwidth, r@),
{
    let mut row: Vec<Binary64> = Vec::new();
    let mut j: usize = 0;
    while j < centroids.len()
        invariant
            j <= centroids.len(),
            row.len() == j,
            forall|e: Binary64| call_requires(*exp, (e,)),
            forall|k: int|
                0 <= k < j ==> call_ensures(
                    *exp,
                    (exponent_at(x, centroids@[k].mean, bandwidth),),
                    #[trigger] row@[k],
                ),
        decreases centroids.len() - j,
    {
        row.push(exp(kernel_exponent(x, centroids[j].mean, bandwidth)));
        j = j + 1;
    }
    row
}

/// The kernel density of centroids with the given weights over `n` bins.
pub fn kernel_density<P: Fn(Binary64, Binary64) -> Binary64, X: Fn(Binary64) -> Binary64>(
    centroids: &Vec<Centroid>,
    weights: &Vec<Binary64>,
    n: usize,
    x_min: Binary64,
    dx: Binary64,
    bandwidth: Binary64,
    powf: &P,
    exp: &X,
) -> (r: Vec<Binary64>)
    requires
        weights.len() == centroids.len(),
        forall|x: Binary64, p: Binary64| call_requires(*powf, (x, p)),
        forall|e: Binary64| call_requires(*exp, (e,)),
    ensures
        is_kernel_density(
            *powf,
            *exp,
            centroids@,
            weights@,
            n as int,
            x_min,
            dx,
            bandwidth,
            r@,
        ),
{
    if total(weights).equals(Binary64::zeroed()) {
        return zero_row(n);
    }
    let bw: Binary64 = if bandwidth.at_most(Binary64::zeroed()) {
        let effective: Binary64 = effective_count(weights);
        let power: Binary64 = powf(effective, Binary64::from_bits(RULE_EXPONENT));
        assert(call_ensures(*powf, (effective_count_of(weights@), of(RULE_EXPONENT)), power));
        thumb_bandwidth(centroids, weights, dx, power)
    } else {
        bandwidth
    };
    let mut out: Vec<Binary64> = Vec::new();
    let ghost mut rows: Seq<Seq<Binary64>> = Seq::empty();
    let mut i: usize = 0;
    while i < n
        invariant
            i <= n,
            weights.len() == centroids.len(),
            forall|e: Binary64| call_requires(*exp, (e,)),
            raised_rows(*exp, centroids@, i as int, x_min, dx, bw, rows),
            out@ == kernel_density_of(weights@, rows, bw, dx),
        decreases n - i,
    {
        let middle: Binary64 = Binary64::from_count(i as u64).plus(Binary64::from_bits(HALF));
        let x: Binary64 = x_min.plus(middle.times(dx));
        let row: Vec<Binary64> = exponentials(centroids, x, bw, exp);
        out.push(kernel_percentage(weights, &row, bw, dx));
        proof {
            rows = rows.push(row@);
            assert(out@ =~= kernel_density_of(weights@, rows, bw, dx));
        }
        i = i + 1;
    }
    assert(is_bandwidth(*powf, centroids@, weights@, dx, bandwidth, bw));
    assert(raised_rows(*exp, centroids@, n as int, x_min, dx, bw, rows));
    out
}

/// The kernel density of the digest over `num_points` bins between `x_min` and `x_max`. A
/// bandwidth of zero or less stands for that of the rule of thumb. `powers` holds the means
/// raised to the weight power; it is not looked at where the weight power is zero.
pub fn _tdigest_to_pdf_kde_inner<
    P: Fn(Binary64, Binary64) -> Binary64,
    X: Fn(Binary64) -> Binary64,
>(
    sketch: &TDigest,
    num_points: i32,
    x_min: Binary64,
    x_max: Binary64,
    bandwidth: Binary64,
    weight_power: Binary64,
    powers: &Vec<Binary64>,
    powf: &P,
    exp: &X,
) -> (r: Vec<Binary64>)
    requires
        plain(weight_power) || powers.len() == sketch.centroids.len(),
        forall|x: Binary64, p: Binary64| call_requires(*powf, (x, p)),
        forall|e: Binary64| call_requires(*exp, (e,)),
    ensures
        is_digest_kernel_density(
            *powf,
            *exp,
            sketch@,
            weights_of(sketch@.centroids, weight_power, powers@),
            num_points,
            x_min,
            x_max,
            bandwidth,
            r@,
        ),
{
    if num_points <= 0 {
        return Vec::new();
    }
    let n: usize = num_points as usize;
    if sketch.count == 0 {
        return zero_row(n);
    }
    let dx: Binary64 = step(n, x_min, x_max);
    let internal: InternalTDigest = sketch.to_internal_tdigest();
    let weights: Vec<Binary64> = centroid_weights(&internal.centroids, weight_power, powers);
    kernel_density(&internal.centroids, &weights, n, x_min, dx, bandwidth, powf, exp)
}

/// The kernel density of the digest, with the bandwidth of the rule of thumb.
pub fn tdigest_to_pdf_kde<P: Fn(Binary64, Binary64) -> Binary64, X: Fn(Binary64) -> Binary64>(
    sketch: &TDigest,
    num_points: i32,
    x_min: Binary64,
    x_max: Binary64,
    powf: P,
    exp: X,
) -> (r: Vec<Binary64>)
    requires
        forall|x: Binary64, p: Binary64| call_requires(powf, (x, p)),
        forall|e: Binary64| call_requires(exp, (e,)),
    ensures
        is_digest_kernel_density(
            powf,
            exp,
            sketch@,
            counts_of(sketch@.centroids),
            num_points,
            x_min,
            x_max,
            of(0),
            r@,
        ),
{
    tdigest_to_pdf_kde_bandwidth(sketch, num_points, x_min, x_max, Binary64::zeroed(), powf, exp)
}

/// The kernel density of the digest with the given bandwidth.
pub fn tdigest_to_pdf_kde_bandwidth<
    P: Fn(Binary64, Binary64) -> Binary64,
    X: Fn(Binary64) -> Binary64,
>(
    sketch: &TDigest,
    num_points: i32,
    x_min: Binary64,
    x_max: Binary64,
    bandwidth: Binary64,
    powf: P,
    exp: X,
) -> (r: Vec<Binary64>)
    requires
        forall|x: Binary64, p: Binary64| call_requires(powf, (x, p)),
        forall|e: Binary64| call_requires(exp, (e,)),
    ensures
        is_digest_kernel_density(
            powf,
            exp,
            sketch@,
            counts_of(sketch@.centroids),
            num_points,
            x_min,
            x_max,
            bandwidth,
            r@,
        ),
{
    let powers: Vec<Binary64> = Vec::new();
    proof {
        law_weight_power_zero(sketch@.centroids, of(0), powers@);
    }
    _tdigest_to_pdf_kde_inner(
        sketch,
        num_points,
        x_min,
        x_max,
        bandwidth,
        Binary64::zeroed(),
        &powers,
        &powf,
        &exp,
    )
}

/// The kernel density of the digest with the given bandwidth, centroids weighted by their means
/// raised to the weight power.
pub fn tdigest_to_pdf_kde_weighted<
    P: Fn(Binary64, Binary64) -> Binary64,
    X: Fn(Binary64) -> Binary64,
>(
    sketch: &TDigest,
    num_points: i32,
    x_min: Binary64,
    x_max: Binary64,
    bandwidth: Binary64,
    weight_power: Binary64,
    powf: P,
    exp: X,
) -> (r: Vec<Binary64>)
    requires
        forall|x: Binary64, p: Binary64| call_requires(powf, (x, p)),
        forall|e: Binary64| call_requires(exp, (e,)),
    ensures
        exists|powers: Seq<Binary64>|
            {
                &&& #[trigger] raised(powf, sketch@.centroids, weight_power, powers)
                &&& is_digest_kernel_density(
                    powf,
                    exp,
                    sketch@,
                    weights_of(sketch@.centroids, weight_power, powers),
                    num_points,
                    x_min,
                    x_max,
                    bandwidth,
                    r@,
                )
            },
{
    let powers: Vec<Binary64> = raise_means(&sketch.centroids, weight_power, &powf);
    assert(raised(powf, sketch@.centroids, weight_power, powers@));
    _tdigest_to_pdf_kde_inner(
        sketch,
        num_points,
        x_min,
        x_max,
        bandwidth,
        weight_power,
        &powers,
        &powf,
        &exp,
    )
}

} // verus!
