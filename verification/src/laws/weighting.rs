//! Weights of the weighted aggregate: how they become counts.

use vstd::prelude::*;

use crate::aggregate::{step_with, weighted_entry_of, Entry, Transition};
use crate::binary64::arithmetic::{distance, nearest_count, unity, whole};
use crate::binary64::laws::{law_whole_is_exact, law_whole_one, lemma_constants};
use crate::binary64::number::{lemma_value_sign, of, ONE};
use crate::binary64::rank::BLOCK;
use crate::binary64::Binary64;

verus! {

/// A weight goes to the nearest integer, halves up, as long as that is in range.
pub proof fn law_weight_goes_to_the_nearest_integer(w: Binary64)
    requires
        w.nonnegative(),
        !w.negative(),
        w.value() <= (u64::MAX - 1) * unity(),
    ensures
        2 * distance(nearest_count(w) * unity() - w.value()) <= unity(),
        2 * (w.value() - nearest_count(w) * unity()) < unity(),
{
    lemma_constants();
    let u = unity();
    let v = w.value();
    let n = (2 * v + u) / (2 * u);
    assert(2 * n * u <= 2 * v + u < 2 * (n + 1) * u) by (nonlinear_arith)
        requires
            n == (2 * v + u) / (2 * u),
            u > 0,
            v >= 0,
    ;
    assert(2 * (n + 1) * u == 2 * (n * u) + 2 * u) by (nonlinear_arith);
    assert(2 * n * u == 2 * (n * u)) by (nonlinear_arith);
    assert(n <= u64::MAX) by (nonlinear_arith)
        requires
            2 * (n * u) <= 2 * v + u,
            v <= (u64::MAX - 1) * u,
            u > 0,
    ;
}

/// An integer weight up to two to the power of 53 is taken as it is.
pub proof fn law_integer_weight_is_taken_as_it_is(n: int)
    requires
        0 <= n <= 2 * BLOCK,
    ensures
        nearest_count(whole(n)) == n,
{
    lemma_constants();
    law_whole_is_exact(n);
    let u = unity();
    assert((2 * (n * u) + u) / (2 * u) == n) by (nonlinear_arith)
        requires
            u > 0,
            n >= 0,
    ;
}

/// A value of weight 1 is entered once.
pub proof fn law_unit_weight_counts_once(value: Binary64)
    requires
        !value.nan(),
    ensures
        weighted_entry_of(Some(value), Some(of(ONE))) == Some(Entry::Weighted(value, 1)),
{
    lemma_constants();
    law_whole_one();
    law_integer_weight_is_taken_as_it_is(1);
}

/// A weight past the range of counts becomes the largest count.
pub proof fn law_huge_weight_becomes_the_largest_count(w: Binary64)
    requires
        !w.nan(),
        w.value() >= u64::MAX * unity(),
    ensures
        nearest_count(w) == u64::MAX,
{
    lemma_constants();
    lemma_value_sign(w);
    let u = unity();
    let v = w.value();
    let n = (2 * v + u) / (2 * u);
    assert(u64::MAX * u > 0) by (nonlinear_arith)
        requires
            u > 0,
    ;
    assert(n >= u64::MAX) by (nonlinear_arith)
        requires
            n == (2 * v + u) / (2 * u),
            v >= u64::MAX * u,
            u > 0,
    ;
}

/// A row of the weighted aggregate with a value and a positive weight pushes that value, with the
/// integer nearest to the weight, halves going up.
pub proof fn law_weighted_value_is_pushed<S>(
    state: S,
    size: i32,
    value: Binary64,
    weight: Binary64,
) -> (n: u64)
    requires
        !value.nan(),
        of(0).lt(weight),
    ensures
        step_with(Some(state), size, weighted_entry_of(Some(value), Some(weight)))
            == (Transition::Push { state, entry: Entry::Weighted(value, n) }),
        size >= 0 ==> step_with(
            None::<S>,
            size,
            weighted_entry_of(Some(value), Some(weight)),
        ) == (Transition::<S>::Start { size: size as usize, entry: Entry::Weighted(value, n) }),
        weight.value() <= (u64::MAX - 1) * unity() ==> {
            &&& 2 * (n * unity() - weight.value()) <= unity()
            &&& 2 * (weight.value() - n * unity()) < unity()
        },
        weight.value() >= u64::MAX * unity() ==> n == u64::MAX,
{
    lemma_constants();
    lemma_value_sign(weight);
    if weight.value() <= (u64::MAX - 1) * unity() {
        law_weight_goes_to_the_nearest_integer(weight);
    }
    if weight.value() >= u64::MAX * unity() {
        law_huge_weight_becomes_the_largest_count(weight);
    }
    nearest_count(weight) as u64
}

} // verus!
