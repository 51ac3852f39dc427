//! Weights of centroids, and running totals of numbers.

use vstd::prelude::*;

use crate::binary64::arithmetic::{product_of, sum_of, whole};
use crate::binary64::laws::{
    law_product_of_nonnegative, law_sum_of_nonnegative, law_whole_is_finite, lemma_constants,
};
use crate::binary64::number::of;
use crate::binary64::Binary64;
use crate::digest::Centroid;

verus! {

/// The sum of the numbers from left to right, starting at zero.
pub open spec fn total_of(xs: Seq<Binary64>) -> Binary64
    decreases xs.len(),
{
    if xs.len() == 0 {
        of(0)
    } else {
        sum_of(total_of(xs.drop_last()), xs.last())
    }
}

/// No weight is negative or a NaN.
pub open spec fn weighty(ws: Seq<Binary64>) -> bool {
    forall|i: int| 0 <= i < ws.len() ==> (#[trigger] ws[i]).nonnegative()
}

/// A weight power of zero leaves the weights as they are.
pub open spec fn plain(weight_power: Binary64) -> bool {
    weight_power.same(of(0))
}

/// The weight of a centroid: the number of its values, times `power` unless the weight power
/// is zero. `power` is the mean raised to the weight power.
pub open spec fn weight_of(c: Centroid, weight_power: Binary64, power: Binary64) -> Binary64 {
    if plain(weight_power) {
        whole(c.weight as int)
    } else {
        product_of(whole(c.weight as int), power)
    }
}

/// The number of values in each centroid.
pub open spec fn counts_of(cs: Seq<Centroid>) -> Seq<Binary64> {
    Seq::new(cs.len(), |i: int| whole(cs[i].weight as int))
}

/// The weights of a list of centroids.
pub open spec fn weights_of(
    cs: Seq<Centroid>,
    weight_power: Binary64,
    powers: Seq<Binary64>,
) -> Seq<Binary64> {
    Seq::new(cs.len(), |i: int| weight_of(cs[i], weight_power, powers[i]))
}

/// A weight power of zero weights each centroid by the number of its values, whatever the
/// powers are.
pub proof fn law_weight_power_zero(cs: Seq<Centroid>, weight_power: Binary64, powers: Seq<Binary64>)
    requires
        plain(weight_power),
    ensures
        weights_of(cs, weight_power, powers) == counts_of(cs),
{
}

/// The number of values in a centroid is not negative.
pub proof fn law_counts_are_not_negative(cs: Seq<Centroid>)
    ensures
        weighty(counts_of(cs)),
{
    assert forall|i: int| 0 <= i < cs.len() implies (
    #[trigger] counts_of(cs)[i]).nonnegative() by {
        law_whole_is_finite(cs[i].weight as int);
    }
}

/// Weights are not negative where the powers of the means are finite and not negative.
pub proof fn law_weights_are_not_negative(
    cs: Seq<Centroid>,
    weight_power: Binary64,
    powers: Seq<Binary64>,
)
    requires
        powers.len() == cs.len(),
        weighty(powers),
        forall|i: int| 0 <= i < powers.len() ==> (#[trigger] powers[i]).finite(),
    ensures
        weighty(weights_of(cs, weight_power, powers)),
{
    assert forall|i: int| 0 <= i < cs.len() implies (
    #[trigger] weights_of(cs, weight_power, powers)[i]).nonnegative() by {
        law_whole_is_finite(cs[i].weight as int);
        assert(powers[i].finite() && powers[i].nonnegative());
        law_product_of_nonnegative(whole(cs[i].weight as int), powers[i]);
    }
}

/// One more number adds to the total.
pub proof fn lemma_total_step(xs: Seq<Binary64>, i: int)
    requires
        0 <= i < xs.len(),
    ensures
        total_of(xs.take(i + 1)) == sum_of(total_of(xs.take(i)), xs[i]),
{
    assert(xs.take(i + 1).drop_last() == xs.take(i));
}

/// The running total of weights that are not negative never goes down.
pub proof fn law_running_total_grows(ws: Seq<Binary64>, i: int, j: int)
    requires
        weighty(ws),
        0 <= i <= j <= ws.len(),
    ensures
        total_of(ws.take(i)).nonnegative(),
        total_of(ws.take(i)).le(total_of(ws.take(j))),
    decreases j,
{
    lemma_constants();
    if j == 0 {
        assert(ws.take(0).len() == 0);
    } else if i < j {
        law_running_total_grows(ws, i, j - 1);
        lemma_total_step(ws, j - 1);
        assert(ws[j - 1].nonnegative());
        law_sum_of_nonnegative(total_of(ws.take(j - 1)), ws[j - 1]);
    } else {
        law_running_total_grows(ws, j - 1, j - 1);
        lemma_total_step(ws, j - 1);
        assert(ws[j - 1].nonnegative());
        law_sum_of_nonnegative(total_of(ws.take(j - 1)), ws[j - 1]);
    }
}

/// `powers` holds what `powf` gave for each mean and the weight power. Nothing is asked of it
/// where the weight power is zero.
pub open spec fn raised<P: Fn(Binary64, Binary64) -> Binary64>(
    powf: P,
    cs: Seq<Centroid>,
    weight_power: Binary64,
    powers: Seq<Binary64>,
) -> bool {
    !plain(weight_power) ==> {
        &&& powers.len() == cs.len()
        &&& forall|i: int|
            0 <= i < cs.len() ==> call_ensures(powf, (cs[i].mean, weight_power), #[trigger] powers[i])
    }
}

/// Whether the weight power is zero.
pub fn is_plain(weight_power: Binary64) -> (r: bool)
    ensures
        r == plain(weight_power),
{
    weight_power.equals(Binary64::zeroed())
}

/// The weight of one centroid.
pub fn centroid_weight(c: &Centroid, weight_power: Binary64, power: Binary64) -> (r: Binary64)
    ensures
        r == weight_of(*c, weight_power, power),
{
    let count: Binary64 = Binary64::from_count(c.weight);
    if is_plain(weight_power) {
        count
    } else {
        count.times(power)
    }
}

/// The weights of all centroids. The powers are not looked at where the weight power is zero.
pub fn centroid_weights(
    centroids: &Vec<Centroid>,
    weight_power: Binary64,
    powers: &Vec<Binary64>,
) -> (r: Vec<Binary64>)
    requires
        plain(weight_power) || powers.len() == centroids.len(),
    ensures
        r@ == weights_of(centroids@, weight_power, powers@),
{
    let unweighted: bool = is_plain(weight_power);
    let mut out: Vec<Binary64> = Vec::new();
    let mut i: usize = 0;
    while i < centroids.len()
        invariant
            i <= centroids.len(),
            unweighted == plain(weight_power),
            unweighted || powers.len() == centroids.len(),
            out@ == weights_of(centroids@, weight_power, powers@).take(i as int),
        decreases centroids.len() - i,
    {
        let power: Binary64 = if unweighted {
            Binary64::zeroed()
        } else {
            powers[i]
        };
        out.push(centroid_weight(&centroids[i], weight_power, power));
        i = i + 1;
        assert(out@ == weights_of(centroids@, weight_power, powers@).take(i as int));
    }
    assert(out@ == weights_of(centroids@, weight_power, powers@));
    out
}

/// The means raised to the weight power, computed by `powf`, which is not called where the
/// weight power is zero.
pub fn raise_means<P: Fn(Binary64, Binary64) -> Binary64>(
    centroids: &Vec<Centroid>,
    weight_power: Binary64,
    powf: &P,
) -> (r: Vec<Binary64>)
    requires
        forall|x: Binary64, p: Binary64| call_requires(*powf, (x, p)),
    ensures
        raised(*powf, centroids@, weight_power, r@),
        weight_power.same(of(0)) ==> r.len() == 0,
        !weight_power.same(of(0)) ==> {
            &&& r.len() == centroids.len()
            &&& forall|i: int|
                0 <= i < r.len() ==> call_ensures(
                    *powf,
                    (centroids@[i].mean, weight_power),
                    #[trigger] r@[i],
                )
        },
{
    let mut out: Vec<Binary64> = Vec::new();
    if is_plain(weight_power) {
        return out;
    }
    let mut i: usize = 0;
    while i < centroids.len()
        invariant
            i <= centroids.len(),
            out.len() == i,
            forall|x: Binary64, p: Binary64| call_requires(*powf, (x, p)),
            forall|j: int|
                0 <= j < i ==> call_ensures(
                    *powf,
                    (centroids@[j].mean, weight_power),
                    #[trigger] out@[j],
                ),
        decreases centroids.len() - i,
    {
        out.push(powf(centroids[i].mean, weight_power));
        i = i + 1;
    }
    out
}

/// The sum of a list of numbers.
pub fn total(xs: &Vec<Binary64>) -> (r: Binary64)
    ensures
        r == total_of(xs@),
{
    let mut sum: Binary64 = Binary64::zeroed();
    let mut i: usize = 0;
    while i < xs.len()
        invariant
            i <= xs.len(),
            sum == total_of(xs@.take(i as int)),
        decreases xs.len() - i,
    {
        sum = sum.plus(xs[i]);
        i = i + 1;
        assert(xs@.take(i as int).drop_last() == xs@.take(i - 1));
    }
    assert(xs@.take(i as int) == xs@);
    sum
}

} // verus!
