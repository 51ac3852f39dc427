//! A weight power of zero changes nothing.

use vstd::prelude::*;

use crate::binary64::Binary64;
use crate::digest::{Centroid, TDigestView};
use crate::histogram::histogram_of;
use crate::kernel::is_digest_kernel_density;
use crate::quantile::quantile_of;
use crate::weights::{counts_of, law_weight_power_zero, plain, weights_of};

verus! {

/// With a weight power of zero, the value at a quantile is that of the unweighted centroids.
pub proof fn law_unweighted_quantile(
    cs: Seq<Centroid>,
    weight_power: Binary64,
    powers: Seq<Binary64>,
    q: Binary64,
)
    requires
        plain(weight_power),
    ensures
        quantile_of(cs, weights_of(cs, weight_power, powers), q) == quantile_of(
            cs,
            counts_of(cs),
            q,
        ),
{
    law_weight_power_zero(cs, weight_power, powers);
}

/// With a weight power of zero, a histogram is that of the unweighted centroids, whatever the
/// edges.
pub proof fn law_unweighted_histogram(
    digest: TDigestView,
    edges: Seq<Binary64>,
    weight_power: Binary64,
    powers: Seq<Binary64>,
)
    requires
        plain(weight_power),
    ensures
        histogram_of(digest, edges, weights_of(digest.centroids, weight_power, powers))
            == histogram_of(digest, edges, counts_of(digest.centroids)),
{
    law_weight_power_zero(digest.centroids, weight_power, powers);
}

/// With a weight power of zero, a kernel density is that of the unweighted centroids.
pub proof fn law_unweighted_kernel_density<
    P: Fn(Binary64, Binary64) -> Binary64,
    X: Fn(Binary64) -> Binary64,
>(
    powf: P,
    exp: X,
    digest: TDigestView,
    weight_power: Binary64,
    powers: Seq<Binary64>,
    num_points: i32,
    x_min: Binary64,
    x_max: Binary64,
    bandwidth: Binary64,
    r: Seq<Binary64>,
)
    requires
        plain(weight_power),
    ensures
        is_digest_kernel_density(
            powf,
            exp,
            digest,
            weights_of(digest.centroids, weight_power, powers),
            num_points,
            x_min,
            x_max,
            bandwidth,
            r,
        ) <==> is_digest_kernel_density(
            powf,
            exp,
            digest,
            counts_of(digest.centroids),
            num_points,
            x_min,
            x_max,
            bandwidth,
            r,
        ),
{
    law_weight_power_zero(digest.centroids, weight_power, powers);
}

} // verus!
