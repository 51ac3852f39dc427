//! Figures that a digest keeps exactly.

use vstd::prelude::*;

use crate::binary64::arithmetic::{distance, quotient_of, unity, whole};
use crate::binary64::closeness::{lemma_whole_is_near, near};
use crate::binary64::errors::{law_quotient_error, spacing};
use crate::binary64::laws::{
    law_quotient_by_one_or_more_is_finite, law_whole_is_exact, law_whole_is_finite,
    law_whole_keeps_order, law_whole_one, lemma_constants,
};
use crate::binary64::nearness::law_special_quotients;
use crate::binary64::number::{lemma_value_sign, of};
use crate::binary64::rank::BLOCK;
use crate::binary64::Binary64;
use crate::digest::{TDigest, TDigestView};

verus! {

/// The average of the values of a digest, zero where there are none.
pub open spec fn average_of(digest: TDigestView) -> Binary64 {
    if digest.count > 0 {
        quotient_of(digest.sum, whole(digest.count as int))
    } else {
        of(0)
    }
}

/// The number of values from which the digest was built.
pub fn tdigest_count(digest: &TDigest) -> (r: Binary64)
    ensures
        r == whole(digest.count as int),
{
    Binary64::from_count(digest.count)
}

/// The smallest value entered in the digest.
pub fn tdigest_min(digest: &TDigest) -> (r: Binary64)
    ensures
        r == digest.min,
{
    digest.min
}

/// The largest value entered in the digest.
pub fn tdigest_max(digest: &TDigest) -> (r: Binary64)
    ensures
        r == digest.max,
{
    digest.max
}

/// The average of all the values entered in the digest. It is not an approximation, though
/// precision may be lost.
pub fn tdigest_mean(digest: &TDigest) -> (r: Binary64)
    ensures
        r == average_of(digest@),
{
    if digest.count > 0 {
        digest.sum.over(Binary64::from_count(digest.count))
    } else {
        Binary64::zeroed()
    }
}

/// The sum of all the values entered in the digest.
pub fn tdigest_sum(digest: &TDigest) -> (r: Binary64)
    ensures
        r == digest.sum,
{
    digest.sum
}

/// Asks for the number of values.
#[derive(Clone, Copy, Debug, PartialEq, Eq, Structural)]
pub struct AccessorNumVals {}

/// Asks for the smallest value.
#[derive(Clone, Copy, Debug, PartialEq, Eq, Structural)]
pub struct AccessorMinVal {}

/// Asks for the largest value.
#[derive(Clone, Copy, Debug, PartialEq, Eq, Structural)]
pub struct AccessorMaxVal {}

/// Asks for the average.
#[derive(Clone, Copy, Debug, PartialEq, Eq, Structural)]
pub struct AccessorMean {}

/// The number of values from which the digest was built.
pub fn arrow_tdigest_num_vals(sketch: &TDigest, _accessor: AccessorNumVals) -> (r: Binary64)
    ensures
        r == whole(sketch.count as int),
{
    tdigest_count(sketch)
}

/// The smallest value entered in the digest.
pub fn arrow_tdigest_min(sketch: &TDigest, _accessor: AccessorMinVal) -> (r: Binary64)
    ensures
        r == sketch.min,
{
    tdigest_min(sketch)
}

/// The largest value entered in the digest.
pub fn arrow_tdigest_max(sketch: &TDigest, _accessor: AccessorMaxVal) -> (r: Binary64)
    ensures
        r == sketch.max,
{
    tdigest_max(sketch)
}

/// The average of all the values entered in the digest.
pub fn arrow_tdigest_mean(sketch: &TDigest, _accessor: AccessorMean) -> (r: Binary64)
    ensures
        r == average_of(sketch@),
{
    tdigest_mean(sketch)
}

/// The average times the number of values is the sum, up to rounding; without values it is zero.
pub proof fn law_average_of_all_values_adds_up(digest: TDigestView)
    ensures
        digest.count == 0 ==> average_of(digest) == of(0),
        digest.count > 0 && digest.sum.finite() ==> {
            let average = average_of(digest);
            let n = whole(digest.count as int).value();
            &&& average.finite()
            &&& 2 * distance(average.value() * n - digest.sum.value() * unity()) <= spacing(average)
                * n
            &&& near(n, digest.count * unity(), 1, 1)
        },
        digest.count > 0 && digest.sum.infinite() ==> {
            &&& average_of(digest).infinite()
            &&& average_of(digest).negative() == digest.sum.negative()
        },
        digest.count > 0 && digest.sum.nan() ==> average_of(digest).nan(),
{
    lemma_constants();
    let n = digest.count as int;
    law_whole_is_finite(n);
    law_special_quotients(digest.sum, whole(n));
    if n > 0 {
        law_whole_one();
        law_whole_keeps_order(1, n);
        lemma_value_sign(whole(n));
    }
    if n > 0 && digest.sum.finite() {
        lemma_whole_is_near(n);
        law_quotient_by_one_or_more_is_finite(digest.sum, whole(n));
        law_quotient_error(digest.sum, whole(n));
    }
}

/// The figures that can be asked for are those that the digest holds.
pub proof fn law_number_of_values_is_the_count(digest: TDigestView)
    ensures
        near(whole(digest.count as int).value(), digest.count * unity(), 1, 1),
        digest.count <= 2 * BLOCK ==> whole(digest.count as int).value() == digest.count * unity(),
{
    lemma_whole_is_near(digest.count as int);
    if digest.count <= 2 * BLOCK {
        law_whole_is_exact(digest.count as int);
    }
}

} // verus!
