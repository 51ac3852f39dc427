//! Histograms: which bin a value belongs to, and that nothing is lost.

use vstd::prelude::*;

use crate::binary64::arithmetic::whole;
use crate::binary64::laws::{
    law_sum_of_nonnegative, law_whole_adds, law_whole_zero, lemma_constants,
};
use crate::binary64::number::of;
use crate::binary64::rank::BLOCK;
use crate::binary64::Binary64;
use crate::digest::{Centroid, TDigestView};
use crate::histogram::{
    bin_at, bins_of, bisected, comparable, found, histogram_of, lands, stands, tallied, trivial,
    Place,
};
use crate::weights::{counts_of, total_of, weighty};

verus! {

/// The edges go up.
pub open spec fn rising(edges: Seq<Binary64>) -> bool {
    forall|i: int, j: int| 0 <= i < j < edges.len() ==> (#[trigger] edges[i]).lt(#[trigger] edges[j])
}

/// A bin holds what lies from its lower edge on and before its upper edge. The first bin also
/// holds what lies before it, the last bin what lies at its upper edge or after it.
pub proof fn law_bin_holds_its_interval(edges: Seq<Binary64>, x: Binary64, k: int)
    requires
        edges.len() >= 2,
        rising(edges),
        lands(edges, x, k),
    ensures
        0 <= k < edges.len() - 1,
        k > 0 ==> edges[k].le(x),
        k < edges.len() - 2 ==> x.lt(edges[k + 1]),
{
    let bins = edges.len() - 1;
    let place = choose|place: Place|
        #[trigger] stands(edges, x, place) && k == bin_at(place, edges.len() - 1);
    match place {
        Place::At(i) => {
            if i < bins {
                assert(edges[i as int].lt(edges[i + 1]));
            } else {
                assert(edges[bins - 1].lt(edges[bins]));
            }
        },
        Place::Before(i) => {
            if i == 0 {
                assert(edges[0].lt(edges[1]));
            } else if i > bins {
                assert(edges[bins - 1].lt(edges[bins]));
            }
        },
    }
}

/// A value belongs to one bin.
pub proof fn law_bin_is_unique(edges: Seq<Binary64>, x: Binary64, j: int, k: int)
    requires
        edges.len() >= 2,
        rising(edges),
        lands(edges, x, j),
        lands(edges, x, k),
    ensures
        j == k,
{
    law_bin_holds_its_interval(edges, x, j);
    law_bin_holds_its_interval(edges, x, k);
    if j + 1 < k {
        assert(edges[j + 1].lt(edges[k]));
    }
    if k + 1 < j {
        assert(edges[k + 1].lt(edges[j]));
    }
}

/// Bisection between edges that are smaller and greater than a number comes to a place where it
/// stands.
proof fn lemma_bisected_stands(edges: Seq<Binary64>, x: Binary64, low: int, high: int)
    requires
        0 <= low <= high <= edges.len() <= usize::MAX,
        comparable(edges),
        !x.nan(),
        low > 0 ==> edges[low - 1].lt(x),
        high < edges.len() ==> x.lt(edges[high]),
    ensures
        stands(edges, x, bisected(edges, x, low, high)),
    decreases high - low,
{
    if low < high {
        let mid = low + (high - low) / 2;
        assert(!edges[mid].nan());
        if edges[mid].lt(x) {
            lemma_bisected_stands(edges, x, mid + 1, high);
        } else if !edges[mid].same(x) {
            lemma_bisected_stands(edges, x, low, mid);
        }
    }
}

/// A value is counted in a bin that it belongs to.
pub proof fn law_value_lands_in_its_bin(edges: Seq<Binary64>, x: Binary64)
    requires
        edges.len() <= usize::MAX,
        comparable(edges),
        !x.nan(),
    ensures
        stands(edges, x, found(edges, x)),
        lands(edges, x, bin_at(found(edges, x), edges.len() - 1)),
{
    lemma_bisected_stands(edges, x, 0, edges.len() as int);
}

/// Bisection stays among the edges.
proof fn lemma_bisected_range(edges: Seq<Binary64>, x: Binary64, low: int, high: int)
    requires
        0 <= low <= high <= edges.len() <= usize::MAX,
    ensures
        match bisected(edges, x, low, high) {
            Place::At(i) => i < edges.len(),
            Place::Before(i) => i <= edges.len(),
        },
    decreases high - low,
{
    if low < high {
        let mid = low + (high - low) / 2;
        lemma_bisected_range(edges, x, mid + 1, high);
        lemma_bisected_range(edges, x, low, mid);
    }
}

/// Every centroid is counted in a bin.
proof fn lemma_bins_in_range(cs: Seq<Centroid>, edges: Seq<Binary64>)
    requires
        2 <= edges.len() <= usize::MAX,
    ensures
        forall|i: int|
            0 <= i < cs.len() ==> 0 <= #[trigger] bins_of(cs, edges)[i] < edges.len() - 1,
{
    assert forall|i: int| 0 <= i < cs.len() implies 0 <= #[trigger] bins_of(cs, edges)[i]
        < edges.len() - 1 by {
        lemma_bisected_range(edges, cs[i].mean, 0, edges.len() as int);
    }
}

/// The number of bins.
proof fn lemma_tallied_length(chosen: Seq<int>, ws: Seq<Binary64>, bins: int)
    requires
        bins >= 0,
        forall|i: int| 0 <= i < chosen.len() ==> 0 <= #[trigger] chosen[i] < bins,
    ensures
        tallied(chosen, ws, bins).len() == bins,
    decreases chosen.len(),
{
    if chosen.len() > 0 {
        let init = chosen.drop_last();
        assert(chosen.last() == chosen[chosen.len() - 1]);
        assert forall|i: int| 0 <= i < init.len() implies 0 <= #[trigger] init[i] < bins by {
            assert(init[i] == chosen[i]);
        }
        lemma_tallied_length(init, ws, bins);
    }
}

/// A histogram has one bin less than there are edges.
pub proof fn law_histogram_has_a_bin_between_edges(
    digest: TDigestView,
    edges: Seq<Binary64>,
    ws: Seq<Binary64>,
)
    requires
        edges.len() <= usize::MAX,
    ensures
        edges.len() > 0 ==> histogram_of(digest, edges, ws).len() == edges.len() - 1,
        edges.len() == 0 ==> histogram_of(digest, edges, ws).len() == 0,
{
    if !trivial(digest, edges) {
        lemma_bins_in_range(digest.centroids, edges);
        lemma_tallied_length(bins_of(digest.centroids, edges), ws, edges.len() - 1);
    }
}

proof fn lemma_tallied_nonnegative(chosen: Seq<int>, ws: Seq<Binary64>, bins: int)
    requires
        bins >= 0,
        weighty(ws),
        chosen.len() <= ws.len(),
        forall|i: int| 0 <= i < chosen.len() ==> 0 <= #[trigger] chosen[i] < bins,
    ensures
        weighty(tallied(chosen, ws, bins)),
    decreases chosen.len(),
{
    lemma_constants();
    lemma_tallied_length(chosen, ws, bins);
    if chosen.len() > 0 {
        let init = chosen.drop_last();
        assert forall|i: int| 0 <= i < init.len() implies 0 <= #[trigger] init[i] < bins by {
            assert(init[i] == chosen[i]);
        }
        lemma_tallied_nonnegative(init, ws, bins);
        lemma_tallied_length(init, ws, bins);
        let before = tallied(init, ws, bins);
        let k = chosen.last();
        assert(k == chosen[chosen.len() - 1]);
        assert(before[k].nonnegative() && ws[chosen.len() - 1].nonnegative());
        law_sum_of_nonnegative(before[k], ws[chosen.len() - 1]);
        assert forall|i: int| 0 <= i < tallied(chosen, ws, bins).len() implies (
        #[trigger] tallied(chosen, ws, bins)[i]).nonnegative() by {
            assert(before[i].nonnegative());
        }
    }
}

/// The bins of weights that are not negative are not negative.
pub proof fn law_histogram_is_not_negative(
    digest: TDigestView,
    edges: Seq<Binary64>,
    ws: Seq<Binary64>,
)
    requires
        edges.len() <= usize::MAX,
        weighty(ws),
        ws.len() == digest.centroids.len(),
    ensures
        weighty(histogram_of(digest, edges, ws)),
{
    lemma_constants();
    if !trivial(digest, edges) {
        lemma_bins_in_range(digest.centroids, edges);
        lemma_tallied_nonnegative(bins_of(digest.centroids, edges), ws, edges.len() - 1);
    }
}

/// The sum of integers.
pub open spec fn sum_of_counts(counts: Seq<int>) -> int
    decreases counts.len(),
{
    if counts.len() == 0 {
        0
    } else {
        sum_of_counts(counts.drop_last()) + counts.last()
    }
}

/// The integer weights of the centroids.
pub open spec fn centroid_counts_of(cs: Seq<Centroid>) -> Seq<int> {
    Seq::new(cs.len(), |i: int| cs[i].weight as int)
}

/// The bins of integer weights.
spec fn counted(chosen: Seq<int>, counts: Seq<int>, bins: int) -> Seq<int>
    decreases chosen.len(),
{
    if chosen.len() == 0 {
        Seq::new(bins as nat, |i: int| 0int)
    } else {
        let before = counted(chosen.drop_last(), counts, bins);
        let k = chosen.last();
        before.update(k, before[k] + counts[chosen.len() - 1])
    }
}

proof fn lemma_sum_update(s: Seq<int>, k: int, d: int)
    requires
        0 <= k < s.len(),
    ensures
        sum_of_counts(s.update(k, s[k] + d)) == sum_of_counts(s) + d,
    decreases s.len(),
{
    let t = s.update(k, s[k] + d);
    if k == s.len() - 1 {
        assert(t.drop_last() =~= s.drop_last());
    } else {
        assert(t.drop_last() =~= s.drop_last().update(k, s.drop_last()[k] + d));
        lemma_sum_update(s.drop_last(), k, d);
    }
}

proof fn lemma_sum_zeros(n: nat)
    ensures
        sum_of_counts(Seq::new(n, |i: int| 0int)) == 0,
    decreases n,
{
    if n > 0 {
        assert(Seq::new(n, |i: int| 0int).drop_last() =~= Seq::new((n - 1) as nat, |i: int| 0int));
        lemma_sum_zeros((n - 1) as nat);
    }
}

/// Parts of a sum of counts are not larger than the sum.
proof fn lemma_sum_parts(s: Seq<int>)
    requires
        forall|i: int| 0 <= i < s.len() ==> #[trigger] s[i] >= 0,
    ensures
        sum_of_counts(s) >= 0,
        forall|i: int| 0 <= i < s.len() ==> #[trigger] s[i] <= sum_of_counts(s),
    decreases s.len(),
{
    if s.len() > 0 {
        let t = s.drop_last();
        assert forall|i: int| 0 <= i < t.len() implies #[trigger] t[i] >= 0 by {
            assert(t[i] == s[i]);
        }
        lemma_sum_parts(t);
        assert(s.last() == s[s.len() - 1]);
        assert forall|i: int| 0 <= i < s.len() implies #[trigger] s[i] <= sum_of_counts(s) by {
            if i < s.len() - 1 {
                assert(t[i] == s[i]);
            }
        }
    }
}

/// Integers up to two to the power of 53 add up exactly.
proof fn lemma_total_of_counts(xs: Seq<Binary64>, counts: Seq<int>)
    requires
        xs.len() == counts.len(),
        forall|i: int| 0 <= i < xs.len() ==> #[trigger] xs[i] == whole(counts[i]),
        forall|i: int| 0 <= i < counts.len() ==> #[trigger] counts[i] >= 0,
        sum_of_counts(counts) <= 2 * BLOCK,
    ensures
        total_of(xs) == whole(sum_of_counts(counts)),
    decreases xs.len(),
{
    law_whole_zero();
    if xs.len() > 0 {
        let ys = xs.drop_last();
        let init = counts.drop_last();
        assert forall|i: int| 0 <= i < ys.len() implies #[trigger] ys[i] == whole(init[i]) by {
            assert(ys[i] == xs[i] && init[i] == counts[i]);
        }
        assert forall|i: int| 0 <= i < init.len() implies #[trigger] init[i] >= 0 by {
            assert(init[i] == counts[i]);
        }
        assert(counts.last() == counts[counts.len() - 1]);
        assert(xs.last() == xs[xs.len() - 1]);
        lemma_sum_parts(init);
        lemma_total_of_counts(ys, init);
        law_whole_adds(sum_of_counts(init), counts.last());
    }
}

/// The bins of integer weights hold integers, which add up to the weights that were counted.
proof fn lemma_counted(chosen: Seq<int>, counts: Seq<int>, ws: Seq<Binary64>, bins: int)
    requires
        bins >= 0,
        chosen.len() <= counts.len(),
        ws.len() == counts.len(),
        forall|i: int| 0 <= i < chosen.len() ==> 0 <= #[trigger] chosen[i] < bins,
        forall|i: int| 0 <= i < counts.len() ==> #[trigger] counts[i] >= 0,
        forall|i: int| 0 <= i < ws.len() ==> #[trigger] ws[i] == whole(counts[i]),
        sum_of_counts(counts.take(chosen.len() as int)) <= 2 * BLOCK,
    ensures
        counted(chosen, counts, bins).len() == bins,
        tallied(chosen, ws, bins).len() == bins,
        sum_of_counts(counted(chosen, counts, bins)) == sum_of_counts(
            counts.take(chosen.len() as int),
        ),
        forall|i: int| 0 <= i < bins ==> #[trigger] counted(chosen, counts, bins)[i] >= 0,
        forall|i: int|
            0 <= i < bins ==> #[trigger] tallied(chosen, ws, bins)[i] == whole(
                counted(chosen, counts, bins)[i],
            ),
    decreases chosen.len(),
{
    law_whole_zero();
    let n = chosen.len() as int;
    if n == 0 {
        lemma_sum_zeros(bins as nat);
        assert(counts.take(0).len() == 0);
    } else {
        let init = chosen.drop_last();
        let k = chosen.last();
        assert(k == chosen[n - 1]);
        assert forall|i: int| 0 <= i < init.len() implies 0 <= #[trigger] init[i] < bins by {
            assert(init[i] == chosen[i]);
        }
        assert(counts.take(n).drop_last() =~= counts.take(n - 1));
        assert(counts[n - 1] >= 0);
        lemma_counted(init, counts, ws, bins);
        let before = counted(init, counts, bins);
        let now = counted(chosen, counts, bins);
        lemma_sum_update(before, k, counts[n - 1]);
        assert(before[k] >= 0);
        assert forall|i: int| 0 <= i < bins implies #[trigger] now[i] >= 0 by {
            assert(before[i] >= 0);
        }
        lemma_sum_parts(now);
        assert(now[k] <= sum_of_counts(now));
        assert(ws[n - 1] == whole(counts[n - 1]));
        let sums = tallied(init, ws, bins);
        assert(sums[k] == whole(before[k]));
        law_whole_adds(before[k], counts[n - 1]);
        assert forall|i: int| 0 <= i < bins implies #[trigger] tallied(chosen, ws, bins)[i]
            == whole(now[i]) by {
            assert(sums[i] == whole(before[i]));
        }
    }
}

/// A histogram of counts loses nothing: while the digest holds up to two to the power of 53
/// values, its bins add up to the number of values, exactly.
pub proof fn law_histogram_counts_everything(digest: TDigestView, edges: Seq<Binary64>)
    requires
        edges.len() <= usize::MAX,
        !trivial(digest, edges),
        sum_of_counts(centroid_counts_of(digest.centroids)) <= 2 * BLOCK,
    ensures
        total_of(histogram_of(digest, edges, counts_of(digest.centroids))) == whole(
            sum_of_counts(centroid_counts_of(digest.centroids)),
        ),
        total_of(histogram_of(digest, edges, counts_of(digest.centroids))) == total_of(
            counts_of(digest.centroids),
        ),
{
    let cs = digest.centroids;
    let counts = centroid_counts_of(cs);
    let ws = counts_of(cs);
    let bins = edges.len() - 1;
    let chosen = bins_of(cs, edges);
    lemma_bins_in_range(cs, edges);
    assert(counts.take(chosen.len() as int) =~= counts);
    lemma_counted(chosen, counts, ws, bins);
    lemma_total_of_counts(histogram_of(digest, edges, ws), counted(chosen, counts, bins));
    lemma_total_of_counts(ws, counts);
}

/// Bin `k` is the one for `x`: it starts at or before `x` and ends after it. The first bin has no
/// lower end and the last one no upper end.
pub open spec fn holds(edges: Seq<Binary64>, k: int, x: Binary64) -> bool {
    &&& k == 0 || edges[k].le(x)
    &&& k == edges.len() - 2 || x.lt(edges[k + 1])
}

/// The weights of the centroids whose means belong to bin `k`, in their order.
pub open spec fn weights_between(
    cs: Seq<Centroid>,
    ws: Seq<Binary64>,
    edges: Seq<Binary64>,
    k: int,
) -> Seq<Binary64>
    decreases cs.len(),
{
    if cs.len() == 0 {
        Seq::empty()
    } else {
        let before = weights_between(cs.drop_last(), ws, edges, k);
        if holds(edges, k, cs.last().mean) {
            before.push(ws[cs.len() - 1])
        } else {
            before
        }
    }
}

/// The weights that were counted in bin `k`, in their order.
pub open spec fn weights_chosen(chosen: Seq<int>, ws: Seq<Binary64>, k: int) -> Seq<Binary64>
    decreases chosen.len(),
{
    if chosen.len() == 0 {
        Seq::empty()
    } else {
        let before = weights_chosen(chosen.drop_last(), ws, k);
        if chosen.last() == k {
            before.push(ws[chosen.len() - 1])
        } else {
            before
        }
    }
}

/// A bin holds the total of the weights that were counted in it.
proof fn lemma_bin_is_a_total(chosen: Seq<int>, ws: Seq<Binary64>, bins: int, k: int)
    requires
        0 <= k < bins,
        forall|i: int| 0 <= i < chosen.len() ==> 0 <= #[trigger] chosen[i] < bins,
    ensures
        tallied(chosen, ws, bins).len() == bins,
        tallied(chosen, ws, bins)[k] == total_of(weights_chosen(chosen, ws, k)),
    decreases chosen.len(),
{
    lemma_tallied_length(chosen, ws, bins);
    if chosen.len() > 0 {
        let init = chosen.drop_last();
        assert(chosen.last() == chosen[chosen.len() - 1]);
        assert forall|i: int| 0 <= i < init.len() implies 0 <= #[trigger] init[i] < bins by {
            assert(init[i] == chosen[i]);
        }
        lemma_bin_is_a_total(init, ws, bins, k);
        let before = weights_chosen(init, ws, k);
        let w = ws[chosen.len() - 1];
        assert(before.push(w).drop_last() =~= before);
    }
}

/// The bins that hold a mean are those that it is counted in.
proof fn lemma_chosen_weights(
    cs: Seq<Centroid>,
    ws: Seq<Binary64>,
    edges: Seq<Binary64>,
    k: int,
)
    requires
        rising(edges),
        2 <= edges.len() <= usize::MAX,
        0 <= k < edges.len() - 1,
        forall|i: int| 0 <= i < cs.len() ==> !(#[trigger] cs[i]).mean.nan(),
    ensures
        weights_chosen(bins_of(cs, edges), ws, k) == weights_between(cs, ws, edges, k),
    decreases cs.len(),
{
    let chosen = bins_of(cs, edges);
    if cs.len() > 0 {
        let init = cs.drop_last();
        assert forall|i: int| 0 <= i < init.len() implies !(#[trigger] init[i]).mean.nan() by {
            assert(init[i] == cs[i]);
        }
        lemma_chosen_weights(init, ws, edges, k);
        assert(chosen.drop_last() =~= bins_of(init, edges));
        let x = cs.last().mean;
        let b = chosen.last();
        assert(!cs[cs.len() - 1].mean.nan());
        lemma_rising_is_comparable(edges);
        law_value_lands_in_its_bin(edges, x);
        law_bin_holds_its_interval(edges, x, b);
        if holds(edges, k, x) && b != k {
            if b + 1 < k {
                assert(edges[b + 1].lt(edges[k]));
            }
            if k + 1 < b {
                assert(edges[k + 1].lt(edges[b]));
            }
        }
    }
}

/// Rising edges are numbers.
proof fn lemma_rising_is_comparable(edges: Seq<Binary64>)
    requires
        rising(edges),
        edges.len() >= 2,
    ensures
        comparable(edges),
{
    assert forall|i: int| 0 <= i < edges.len() implies !(#[trigger] edges[i]).nan() by {
        if i + 1 < edges.len() {
            assert(edges[i].lt(edges[i + 1]));
        } else {
            assert(edges[i - 1].lt(edges[i]));
        }
    }
}

/// Bin `k` of a histogram over rising edges is the total, in order, of the weights of exactly those
/// centroids whose means lie from edge `k` on and before edge `k + 1`; the first and the last bin
/// are open outward.
pub proof fn law_bin_holds_the_weights_between_its_edges(
    digest: TDigestView,
    edges: Seq<Binary64>,
    ws: Seq<Binary64>,
    k: int,
)
    requires
        rising(edges),
        2 <= edges.len() <= usize::MAX,
        digest.count > 0,
        0 <= k < edges.len() - 1,
        forall|i: int| 0 <= i < digest.centroids.len() ==> !(
        #[trigger] digest.centroids[i]).mean.nan(),
    ensures
        histogram_of(digest, edges, ws).len() == edges.len() - 1,
        histogram_of(digest, edges, ws)[k] == total_of(
            weights_between(digest.centroids, ws, edges, k),
        ),
{
    let cs = digest.centroids;
    lemma_bins_in_range(cs, edges);
    lemma_bin_is_a_total(bins_of(cs, edges), ws, edges.len() - 1, k);
    lemma_chosen_weights(cs, ws, edges, k);
}

/// Over edges in any order, repeated or not, every centroid is counted in one bin, and each bin is
/// the total of the weights that are counted in it. A mean is counted in a bin that starts at or
/// before it, unless it lies before the first edge; and in a bin that ends after it or starts at it,
/// unless it lies at or after the last edge.
pub proof fn law_every_centroid_is_counted_once(
    digest: TDigestView,
    edges: Seq<Binary64>,
    ws: Seq<Binary64>,
) -> (chosen: Seq<int>)
    requires
        2 <= edges.len() <= usize::MAX,
        comparable(edges),
        digest.count > 0,
        forall|i: int| 0 <= i < digest.centroids.len() ==> !(
        #[trigger] digest.centroids[i]).mean.nan(),
    ensures
        chosen.len() == digest.centroids.len(),
        forall|i: int|
            0 <= i < chosen.len() ==> {
                let k = #[trigger] chosen[i];
                let x = digest.centroids[i].mean;
                let last = edges.len() - 2;
                &&& 0 <= k <= last
                &&& edges[k].le(x) || (k == 0 && x.lt(edges[0])) || (k == last && edges[last
                    + 1].le(x))
                &&& x.lt(edges[k + 1]) || x.same(edges[k]) || (k == last && edges[last + 1].le(x))
                    || (k == 0 && x.lt(edges[0]))
            },
        histogram_of(digest, edges, ws).len() == edges.len() - 1,
        forall|k: int|
            0 <= k < edges.len() - 1 ==> #[trigger] histogram_of(digest, edges, ws)[k] == total_of(
                weights_chosen(chosen, ws, k),
            ),
{
    let cs = digest.centroids;
    let chosen = bins_of(cs, edges);
    lemma_bins_in_range(cs, edges);
    assert forall|i: int| 0 <= i < chosen.len() implies {
        let k = #[trigger] chosen[i];
        let x = cs[i].mean;
        let last = edges.len() - 2;
        &&& 0 <= k <= last
        &&& edges[k].le(x) || (k == 0 && x.lt(edges[0])) || (k == last && edges[last + 1].le(x))
        &&& x.lt(edges[k + 1]) || x.same(edges[k]) || (k == last && edges[last + 1].le(x)) || (k
            == 0 && x.lt(edges[0]))
    } by {
        assert(!cs[i].mean.nan());
        law_value_lands_in_its_bin(edges, cs[i].mean);
    }
    assert forall|k: int|
        0 <= k < edges.len() - 1 implies #[trigger] histogram_of(digest, edges, ws)[k] == total_of(
        weights_chosen(chosen, ws, k),
    ) by {
        lemma_bin_is_a_total(chosen, ws, edges.len() - 1, k);
    }
    lemma_tallied_length(chosen, ws, edges.len() - 1);
    chosen
}

/// Without values, every bin is zero; without two edges, there is no bin.
pub proof fn law_histogram_of_nothing_is_zero(
    digest: TDigestView,
    edges: Seq<Binary64>,
    ws: Seq<Binary64>,
)
    requires
        digest.count == 0 || edges.len() < 2,
    ensures
        histogram_of(digest, edges, ws).len() == (if edges.len() >= 2 {
            edges.len() - 1
        } else {
            0
        }),
        forall|k: int|
            0 <= k < histogram_of(digest, edges, ws).len() ==> #[trigger] histogram_of(
                digest,
                edges,
                ws,
            )[k] == of(0),
{
}

} // verus!
