//! Histograms of a digest over given bin edges.

use vstd::prelude::*;

use crate::binary64::arithmetic::sum_of;
use crate::binary64::number::of;
use crate::binary64::Binary64;
use crate::digest::{Centroid, InternalTDigest, TDigest, TDigestView};
use crate::weights::{
    centroid_weights, counts_of, law_weight_power_zero, plain, raise_means, raised, weights_of,
};

verus! {

/// Where a number stands among the edges.
#[derive(Clone, Copy, Debug, PartialEq, Eq, Structural)]
pub enum Place {
    /// It is equal to the edge with this index.
    At(usize),
    /// It lies right before the edge with this index, or after the last edge.
    Before(usize),
}

/// `place` is where `x` stands: at an edge that it is equal to, or between two edges that it is
/// greater and smaller than.
pub open spec fn stands(edges: Seq<Binary64>, x: Binary64, place: Place) -> bool {
    match place {
        Place::At(i) => i < edges.len() && edges[i as int].same(x),
        Place::Before(i) => {
            &&& i <= edges.len()
            &&& i > 0 ==> edges[i - 1].lt(x)
            &&& i < edges.len() ==> x.lt(edges[i as int])
        },
    }
}

/// The bin that a place belongs to. Each bin holds its lower edge; what lies before the first
/// edge goes to the first bin, the last edge and what lies after it go to the last bin.
pub open spec fn bin_at(place: Place, bins: int) -> int {
    match place {
        Place::At(i) => if i >= bins {
            bins - 1
        } else {
            i as int
        },
        Place::Before(i) => if i == 0 {
            0
        } else if i > bins {
            bins - 1
        } else {
            i - 1
        },
    }
}

/// `k` is a bin that `x` may be counted in.
pub open spec fn lands(edges: Seq<Binary64>, x: Binary64, k: int) -> bool {
    exists|place: Place| #[trigger] stands(edges, x, place) && k == bin_at(place, edges.len() - 1)
}

/// No edge is a NaN.
pub open spec fn comparable(edges: Seq<Binary64>) -> bool {
    forall|i: int| 0 <= i < edges.len() ==> !(#[trigger] edges[i]).nan()
}

/// No mean is a NaN.
pub open spec fn comparable_means(cs: Seq<Centroid>) -> bool {
    forall|i: int| 0 <= i < cs.len() ==> !(#[trigger] cs[i]).mean.nan()
}

/// A row of zeros.
pub open spec fn zeros(n: int) -> Seq<Binary64> {
    Seq::new(n as nat, |i: int| of(0))
}

/// The bins after each weight was added, in order, to the bin chosen for it.
pub open spec fn tallied(chosen: Seq<int>, ws: Seq<Binary64>, bins: int) -> Seq<Binary64>
    decreases chosen.len(),
{
    if chosen.len() == 0 {
        zeros(bins)
    } else {
        let before = tallied(chosen.drop_last(), ws, bins);
        let k = chosen.last();
        before.update(k, sum_of(before[k], ws[chosen.len() - 1]))
    }
}

/// What halving the edges between `low` and `high` comes to.
pub open spec fn bisected(edges: Seq<Binary64>, x: Binary64, low: int, high: int) -> Place
    decreases high - low,
{
    let mid = low + (high - low) / 2;
    if low >= high {
        Place::Before(low as usize)
    } else if edges[mid].lt(x) {
        bisected(edges, x, mid + 1, high)
    } else if edges[mid].same(x) {
        Place::At(mid as usize)
    } else {
        bisected(edges, x, low, mid)
    }
}

/// The place among the edges that a number is given. Where it may stand in more than one, because
/// an edge is repeated or the edges do not go up, it is the one that bisection comes to first.
pub open spec fn found(edges: Seq<Binary64>, x: Binary64) -> Place {
    bisected(edges, x, 0, edges.len() as int)
}

/// The bin that each centroid is counted in.
pub open spec fn bins_of(cs: Seq<Centroid>, edges: Seq<Binary64>) -> Seq<int> {
    Seq::new(cs.len(), |i: int| bin_at(found(edges, cs[i].mean), edges.len() - 1))
}

/// There is nothing to count or nowhere to count it.
pub open spec fn trivial(digest: TDigestView, edges: Seq<Binary64>) -> bool {
    edges.len() < 2 || digest.count == 0
}

/// Every mean can be put among the edges.
pub open spec fn countable(digest: TDigestView, edges: Seq<Binary64>) -> bool {
    ||| trivial(digest, edges)
    ||| digest.centroids.len() == 0
    ||| comparable(edges) && comparable_means(digest.centroids)
}

/// The histogram of the digest with the given weights of its centroids.
pub open spec fn histogram_of(
    digest: TDigestView,
    edges: Seq<Binary64>,
    ws: Seq<Binary64>,
) -> Seq<Binary64> {
    if trivial(digest, edges) {
        zeros(if edges.len() > 1 {
            edges.len() - 1
        } else {
            0
        })
    } else {
        tallied(bins_of(digest.centroids, edges), ws, edges.len() - 1)
    }
}

/// A row of zeros.
pub(crate) fn zero_row(n: usize) -> (r: Vec<Binary64>)
    ensures
        r@ == zeros(n as int),
{
    let mut out: Vec<Binary64> = Vec::new();
    let mut i: usize = 0;
    while i < n
        invariant
            i <= n,
            out@ == zeros(i as int),
        decreases n - i,
    {
        out.push(Binary64::zeroed());
        i = i + 1;
        assert(out@ == zeros(i as int));
    }
    out
}

/// Finds where `x` stands among the edges by bisection.
pub fn locate(edges: &Vec<Binary64>, x: Binary64) -> (r: Place)
    requires
        comparable(edges@),
        !x.nan(),
    ensures
        r == found(edges@, x),
        stands(edges@, x, r),
{
    let mut low: usize = 0;
    let mut high: usize = edges.len();
    while low < high
        invariant
            low <= high <= edges.len(),
            low > 0 ==> edges@[low - 1].lt(x),
            high < edges.len() ==> x.lt(edges@[high as int]),
            bisected(edges@, x, low as int, high as int) == found(edges@, x),
            comparable(edges@),
            !x.nan(),
        decreases high - low,
    {
        let mid: usize = low + (high - low) / 2;
        assert(!edges@[mid as int].nan());
        if edges[mid].less(x) {
            low = mid + 1;
        } else if edges[mid].equals(x) {
            return Place::At(mid);
        } else {
            high = mid;
        }
    }
    Place::Before(low)
}

/// The bin that a place belongs to.
pub fn bin_of(place: Place, bins: usize) -> (r: usize)
    requires
        bins > 0,
    ensures
        r == bin_at(place, bins as int),
        r < bins,
{
    match place {
        Place::At(i) => if i >= bins {
            bins - 1
        } else {
            i
        },
        Place::Before(i) => if i == 0 {
            0
        } else if i > bins {
            bins - 1
        } else {
            i - 1
        },
    }
}

/// Adds each weight to a bin of its centroid.
fn tally(centroids: &Vec<Centroid>, edges: &Vec<Binary64>, weights: &Vec<Binary64>) -> (r: Vec<
    Binary64,
>)
    requires
        edges.len() >= 2,
        weights.len() == centroids.len(),
        centroids.len() == 0 || (comparable(edges@) && comparable_means(centroids@)),
    ensures
        r@ == tallied(bins_of(centroids@, edges@), weights@, edges.len() - 1),
{
    let bins: usize = edges.len() - 1;
    let mut hist: Vec<Binary64> = zero_row(bins);
    let ghost chosen = bins_of(centroids@, edges@);
    let mut i: usize = 0;
    assert(chosen.take(0).len() == 0);
    while i < centroids.len()
        invariant
            i <= centroids.len(),
            bins == edges.len() - 1,
            bins > 0,
            weights.len() == centroids.len(),
            centroids.len() == 0 || (comparable(edges@) && comparable_means(centroids@)),
            chosen == bins_of(centroids@, edges@),
            hist.len() == bins,
            hist@ == tallied(chosen.take(i as int), weights@, bins as int),
        decreases centroids.len() - i,
    {
        assert(!centroids@[i as int].mean.nan());
        let place: Place = locate(edges, centroids[i].mean);
        let k: usize = bin_of(place, bins);
        assert(chosen.take(i + 1).drop_last() == chosen.take(i as int));
        let sum: Binary64 = hist[k].plus(weights[i]);
        hist.set(k, sum);
        i = i + 1;
    }
    assert(chosen.take(centroids.len() as int) == chosen);
    hist
}

/// The weight of the centroids in each bin, centroids weighted by their means raised to the
/// weight power. `powers` holds those powers; it is not looked at where the weight power is
/// zero.
pub fn _tdigest_to_histogram_inner(
    sketch: &TDigest,
    bin_edges: &Vec<Binary64>,
    weight_power: Binary64,
    powers: &Vec<Binary64>,
) -> (r: Vec<Binary64>)
    requires
        plain(weight_power) || powers.len() == sketch.centroids.len(),
        countable(sketch@, bin_edges@),
    ensures
        r@ == histogram_of(
            sketch@,
            bin_edges@,
            weights_of(sketch@.centroids, weight_power, powers@),
        ),
{
    let m: usize = bin_edges.len();
    if m < 2 || sketch.count == 0 {
        return zero_row(
            if m > 1 {
                m - 1
            } else {
                0
            },
        );
    }
    let internal: InternalTDigest = sketch.to_internal_tdigest();
    let weights: Vec<Binary64> = centroid_weights(&internal.centroids, weight_power, powers);
    tally(&internal.centroids, bin_edges, &weights)
}

/// The number of values in each bin.
pub fn tdigest_to_histogram(sketch: &TDigest, bin_edges: &Vec<Binary64>) -> (r: Vec<Binary64>)
    requires
        countable(sketch@, bin_edges@),
    ensures
        r@ == histogram_of(sketch@, bin_edges@, counts_of(sketch@.centroids)),
{
    let powers: Vec<Binary64> = Vec::new();
    proof {
        law_weight_power_zero(sketch@.centroids, of(0), powers@);
    }
    _tdigest_to_histogram_inner(sketch, bin_edges, Binary64::zeroed(), &powers)
}

/// The weight in each bin, centroids weighted by their means raised to the weight power. The
/// powers come from `powf`.
pub fn tdigest_to_histogram_weighted<P: Fn(Binary64, Binary64) -> Binary64>(
    sketch: &TDigest,
    bin_edges: &Vec<Binary64>,
    weight_power: Binary64,
    powf: P,
) -> (r: Vec<Binary64>)
    requires
        forall|x: Binary64, p: Binary64| call_requires(powf, (x, p)),
        countable(sketch@, bin_edges@),
    ensures
        exists|powers: Seq<Binary64>|
            {
                &&& #[trigger] raised(powf, sketch@.centroids, weight_power, powers)
                &&& r@ == histogram_of(
                    sketch@,
                    bin_edges@,
                    weights_of(sketch@.centroids, weight_power, powers),
                )
            },
        plain(weight_power) ==> r@ == histogram_of(
            sketch@,
            bin_edges@,
            counts_of(sketch@.centroids),
        ),
{
    let powers: Vec<Binary64> = raise_means(&sketch.centroids, weight_power, &powf);
    assert(raised(powf, sketch@.centroids, weight_power, powers@));
    proof {
        if plain(weight_power) {
            law_weight_power_zero(sketch@.centroids, weight_power, powers@);
        }
    }
    _tdigest_to_histogram_inner(sketch, bin_edges, weight_power, &powers)
}

} // verus!
