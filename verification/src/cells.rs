//! Cells of centroids: the interval of values that each centroid stands for.

use vstd::prelude::*;

use crate::binary64::arithmetic::{quotient_of, sum_of};
use crate::binary64::number::{of, TWO};
use crate::binary64::Binary64;
use crate::digest::Centroid;

verus! {

/// `x` brought between `low` and `high`; `otherwise` where it is not comparable to them.
pub open spec fn clamped(x: Binary64, low: Binary64, high: Binary64, otherwise: Binary64) -> Binary64 {
    if low.le(x) && x.le(high) {
        x
    } else if high.lt(x) {
        high
    } else if x.lt(low) {
        low
    } else {
        otherwise
    }
}

/// The number half-way between two means: the first mean, where no number lies between them
/// that is smaller than the second.
pub open spec fn middle_of(low: Binary64, high: Binary64) -> Binary64 {
    let middle = sum_of(quotient_of(low, of(TWO)), quotient_of(high, of(TWO)));
    if low.le(middle) && middle.lt(high) {
        middle
    } else {
        low
    }
}

/// The mean before centroid `k`; its own mean if it is the first.
pub open spec fn lower_mean(cs: Seq<Centroid>, k: int) -> Binary64 {
    if k > 0 {
        cs[k - 1].mean
    } else {
        cs[k].mean
    }
}

/// The mean after centroid `k`; its own mean if it is the last.
pub open spec fn upper_mean(cs: Seq<Centroid>, k: int) -> Binary64 {
    if k + 1 < cs.len() {
        cs[k + 1].mean
    } else {
        cs[k].mean
    }
}

/// The lower end of the cell of centroid `k`, half-way to the mean before.
pub open spec fn lower_edge(cs: Seq<Centroid>, k: int) -> Binary64 {
    middle_of(lower_mean(cs, k), cs[k].mean)
}

/// The upper end of the cell of centroid `k`, half-way to the mean after.
pub open spec fn upper_edge(cs: Seq<Centroid>, k: int) -> Binary64 {
    middle_of(cs[k].mean, upper_mean(cs, k))
}

/// The means are numbers and do not go down.
pub open spec fn ordered(cs: Seq<Centroid>) -> bool {
    forall|i: int, j: int|
        0 <= i <= j < cs.len() ==> (#[trigger] cs[i]).mean.le((#[trigger] cs[j]).mean)
}

/// What is brought between two numbers lies between them.
pub proof fn lemma_clamped(x: Binary64, low: Binary64, high: Binary64, otherwise: Binary64)
    requires
        low.le(high),
        low.le(otherwise),
        otherwise.le(high),
    ensures
        low.le(clamped(x, low, high, otherwise)),
        clamped(x, low, high, otherwise).le(high),
{
}

/// The middle of two means lies between them.
pub proof fn lemma_middle(low: Binary64, high: Binary64)
    requires
        low.le(high),
    ensures
        low.le(middle_of(low, high)),
        middle_of(low, high).le(high),
        low.lt(high) ==> middle_of(low, high).lt(high),
{
}

/// A cell holds the mean of its centroid, and lies between the neighbouring means.
pub proof fn law_cell_holds_its_mean(cs: Seq<Centroid>, k: int)
    requires
        ordered(cs),
        0 <= k < cs.len(),
    ensures
        lower_mean(cs, k).le(lower_edge(cs, k)),
        lower_edge(cs, k).le(cs[k].mean),
        cs[k].mean.le(upper_edge(cs, k)),
        upper_edge(cs, k).le(upper_mean(cs, k)),
        k + 1 < cs.len() ==> upper_edge(cs, k) == lower_edge(cs, k + 1),
{
    assert(cs[k].mean.le(cs[k].mean));
    if k > 0 {
        assert(cs[k - 1].mean.le(cs[k].mean));
    }
    if k + 1 < cs.len() {
        assert(cs[k].mean.le(cs[k + 1].mean));
    }
    lemma_middle(lower_mean(cs, k), cs[k].mean);
    lemma_middle(cs[k].mean, upper_mean(cs, k));
}

/// `x` brought between `low` and `high`.
pub(crate) fn clamp(x: Binary64, low: Binary64, high: Binary64, otherwise: Binary64) -> (r: Binary64)
    ensures
        r == clamped(x, low, high, otherwise),
{
    if low.at_most(x) && x.at_most(high) {
        x
    } else if high.less(x) {
        high
    } else if x.less(low) {
        low
    } else {
        otherwise
    }
}

/// The number half-way between two means.
pub(crate) fn middle(low: Binary64, high: Binary64) -> (r: Binary64)
    ensures
        r == middle_of(low, high),
{
    let two: Binary64 = Binary64::from_bits(TWO);
    let m: Binary64 = low.over(two).plus(high.over(two));
    if low.at_most(m) && m.less(high) {
        m
    } else {
        low
    }
}

} // verus!
