//! Steps of the aggregates that build and merge digests.
//!
//! The digest engine owns the state. Each step looks at what it is given and says what the
//! engine has to do with the state, if anything.

use vstd::prelude::*;

use crate::binary64::arithmetic::nearest_count;
use crate::binary64::number::of;
use crate::binary64::Binary64;
use crate::digest::{InternalTDigest, InternalTDigestView, TDigest};

verus! {

/// Something to push into a digest builder.
#[derive(Clone, Copy, Debug, PartialEq, Eq, Structural)]
pub enum Entry {
    /// One value.
    Single(Binary64),
    /// A value that counts as many times as the weight says.
    Weighted(Binary64, u64),
}

/// What becomes of the state of an aggregate when a row comes in.
#[derive(Debug)]
pub enum Transition<S> {
    /// The state stays as it is.
    Keep(Option<S>),
    /// A builder of the given size is made, and the entry is pushed into it.
    Start { size: usize, entry: Entry },
    /// The entry is pushed into the state.
    Push { state: S, entry: Entry },
}

/// What becomes of two states that are put together.
#[derive(Debug)]
pub enum Combination<S> {
    /// The result is here already.
    Done(Option<S>),
    /// The second state is merged into the first.
    Merge(S, S),
}

/// The entry for a row of the plain aggregate. Nulls and NaNs make none.
pub open spec fn entry_of(value: Option<Binary64>) -> Option<Entry> {
    match value {
        Some(v) if !v.nan() => Some(Entry::Single(v)),
        _ => None,
    }
}

/// The entry for a row of the weighted aggregate. Nulls, NaNs and weights that are not positive
/// make none; a positive weight is rounded to the nearest integer.
pub open spec fn weighted_entry_of(value: Option<Binary64>, weight: Option<Binary64>) -> Option<
    Entry,
> {
    match (value, weight) {
        (Some(v), Some(w)) if !v.nan() && of(0).lt(w) => Some(
            Entry::Weighted(v, nearest_count(w) as u64),
        ),
        _ => None,
    }
}

/// The step that takes an entry into the state.
pub open spec fn step_with<S>(state: Option<S>, size: i32, entry: Option<Entry>) -> Transition<S> {
    match (entry, state) {
        (None, _) => Transition::Keep(state),
        (Some(entry), None) => Transition::Start { size: size as usize, entry },
        (Some(entry), Some(state)) => Transition::Push { state, entry },
    }
}

/// A builder can be made if one is needed: its size is not negative.
pub open spec fn startable<S>(state: Option<S>, size: i32, entry: Option<Entry>) -> bool {
    entry is Some && state is None ==> size >= 0
}

/// Puts together two states, either of which may be missing.
pub open spec fn combined<S>(state1: Option<S>, state2: Option<S>) -> Combination<S> {
    match (state1, state2) {
        (None, None) => Combination::Done(None),
        (None, Some(b)) => Combination::Done(Some(b)),
        (Some(a), None) => Combination::Done(Some(a)),
        (Some(a), Some(b)) => Combination::Merge(a, b),
    }
}

/// What a combination of digests of the engine holds.
pub open spec fn combination_view(c: Combination<InternalTDigest>) -> Combination<
    InternalTDigestView,
> {
    match c {
        Combination::Done(None) => Combination::Done(None),
        Combination::Done(Some(a)) => Combination::Done(Some(a@)),
        Combination::Merge(a, b) => Combination::Merge(a@, b@),
    }
}

/// What a digest of the engine holds, if there is one.
pub open spec fn state_view(state: Option<InternalTDigest>) -> Option<InternalTDigestView> {
    match state {
        Some(a) => Some(a@),
        None => None,
    }
}

/// What a stored digest holds for the engine, if there is one.
pub open spec fn row_view(value: Option<&TDigest>) -> Option<InternalTDigestView> {
    match value {
        Some(b) => Some(b@.internal()),
        None => None,
    }
}

/// Takes an entry into the state.
fn take_entry<S>(state: Option<S>, size: i32, entry: Option<Entry>) -> (r: Transition<S>)
    requires
        startable(state, size, entry),
    ensures
        r == step_with(state, size, entry),
{
    match entry {
        None => Transition::Keep(state),
        Some(entry) => match state {
            None => Transition::Start { size: size as usize, entry },
            Some(state) => Transition::Push { state, entry },
        },
    }
}

/// The step for a row of the plain aggregate. Nulls and NaNs are ignored.
pub fn tdigest_trans_inner<S>(state: Option<S>, size: i32, value: Option<Binary64>) -> (r:
    Transition<S>)
    requires
        startable(state, size, entry_of(value)),
    ensures
        r == step_with(state, size, entry_of(value)),
        value is None || value->0.nan() ==> r == Transition::Keep(state),
        value is Some && !value->0.nan() && state is Some ==> r == (Transition::Push {
            state: state->0,
            entry: Entry::Single(value->0),
        }),
        value is Some && !value->0.nan() && state is None ==> r == (Transition::<S>::Start {
            size: size as usize,
            entry: Entry::Single(value->0),
        }),
{
    let entry: Option<Entry> = match value {
        None => None,
        Some(value) => if value.is_nan() {
            None
        } else {
            Some(Entry::Single(value))
        },
    };
    take_entry(state, size, entry)
}

/// The step for a row of the weighted aggregate. Null values and weights, NaNs, and weights
/// that are not positive are ignored.
pub fn weighted_tdigest_trans<S>(
    state: Option<S>,
    size: i32,
    value: Option<Binary64>,
    weight: Option<Binary64>,
) -> (r: Transition<S>)
    requires
        startable(state, size, weighted_entry_of(value, weight)),
    ensures
        r == step_with(state, size, weighted_entry_of(value, weight)),
        value is None || value->0.nan() || weight is None || weight->0.nan() || weight->0.le(of(0))
            ==> r == Transition::Keep(state),
        value is Some && !value->0.nan() && weight is Some && of(0).lt(weight->0) && state is Some
            ==> {
            &&& r matches Transition::Push { state: s, entry: Entry::Weighted(v, n) }
            &&& s == state->0
            &&& v == value->0
            &&& n == nearest_count(weight->0)
        },
        value is Some && !value->0.nan() && weight is Some && of(0).lt(weight->0) && state is None
            ==> {
            &&& r matches Transition::Start { size: n, entry: Entry::Weighted(v, m) }
            &&& n == size
            &&& v == value->0
            &&& m == nearest_count(weight->0)
        },
{
    let value: Binary64 = match value {
        None => {
            return Transition::Keep(state);
        },
        Some(value) => {
            if value.is_nan() {
                return Transition::Keep(state);
            }
            value
        },
    };
    let weight: Binary64 = match weight {
        None => {
            return Transition::Keep(state);
        },
        Some(w) => {
            if w.at_most(Binary64::zeroed()) || w.is_nan() {
                return Transition::Keep(state);
            }
            w
        },
    };
    take_entry(state, size, Some(Entry::Weighted(value, weight.to_count())))
}

/// The step that puts together two builders.
pub fn tdigest_combine_inner<S>(state1: Option<S>, state2: Option<S>) -> (r: Combination<S>)
    ensures
        r == combined(state1, state2),
        state1 is Some && state2 is Some ==> r == Combination::Merge(state1->0, state2->0),
        state1 is None ==> r == Combination::Done(state2),
        state2 is None ==> r == Combination::Done(state1),
{
    match (state1, state2) {
        (None, None) => Combination::Done(None),
        (None, Some(state2)) => Combination::Done(Some(state2)),
        (Some(state1), None) => Combination::Done(Some(state1)),
        (Some(state1), Some(state2)) => Combination::Merge(state1, state2),
    }
}

/// The step that takes a stored digest into a rollup. Digests of different sizes do not mix.
pub fn tdigest_compound_trans_inner(state: Option<InternalTDigest>, value: Option<&TDigest>) -> (r:
    Combination<InternalTDigest>)
    requires
        state is Some && value is Some ==> state->0.max_size == value->0.max_buckets as usize,
    ensures
        combination_view(r) == combined(state_view(state), row_view(value)),
        state is Some && value is None ==> r == Combination::Done(state),
        state is None && value is None ==> r == Combination::<InternalTDigest>::Done(None),
        state is None && value is Some ==> {
            &&& r matches Combination::Done(Some(a))
            &&& a.min == value->0.min
            &&& a.max == value->0.max
            &&& a.sum == value->0.sum
            &&& a.count == value->0.count
            &&& a.centroids@ == value->0.centroids@
            &&& a.max_size == value->0.max_buckets
        },
        state is Some && value is Some ==> {
            &&& r matches Combination::Merge(a, b)
            &&& a == state->0
            &&& b.min == value->0.min
            &&& b.max == value->0.max
            &&& b.sum == value->0.sum
            &&& b.count == value->0.count
            &&& b.centroids@ == value->0.centroids@
            &&& b.max_size == value->0.max_buckets
        },
{
    match (state, value) {
        (None, None) => Combination::Done(None),
        (Some(a), None) => Combination::Done(Some(a)),
        (None, Some(a)) => Combination::Done(Some(a.to_internal_tdigest())),
        (Some(a), Some(b)) => Combination::Merge(a, b.to_internal_tdigest()),
    }
}

/// The step that puts together two rollups. Digests of different sizes do not mix.
pub fn tdigest_compound_combine_inner(
    state1: Option<InternalTDigest>,
    state2: Option<InternalTDigest>,
) -> (r: Combination<InternalTDigest>)
    requires
        state1 is Some && state2 is Some ==> state1->0.max_size == state2->0.max_size,
    ensures
        combination_view(r) == combined(state_view(state1), state_view(state2)),
        state1 is Some && state2 is Some ==> r == Combination::Merge(state1->0, state2->0),
        state1 is None ==> r == Combination::Done(state2),
        state2 is None ==> r == Combination::Done(state1),
{
    tdigest_combine_inner(state1, state2)
}

/// The stored digest that an aggregate ends with, if it has seen anything.
pub fn tdigest_final(state: Option<&InternalTDigest>) -> (r: Option<TDigest>)
    requires
        state is Some ==> state->0.max_size <= u32::MAX,
    ensures
        r is Some <==> state is Some,
        r is Some ==> r->0@ == state->0@.external(),
        r is Some ==> {
            &&& r->0.min == state->0.min
            &&& r->0.max == state->0.max
            &&& r->0.sum == state->0.sum
            &&& r->0.count == state->0.count
            &&& r->0.centroids@ == state->0.centroids@
            &&& r->0.max_buckets == state->0.max_size
        },
{
    match state {
        None => None,
        Some(state) => Some(TDigest::from_internal_tdigest(state)),
    }
}

/// The stored digest that a rollup ends with, if it has seen anything.
pub fn tdigest_compound_final(state: Option<&InternalTDigest>) -> (r: Option<TDigest>)
    requires
        state is Some ==> state->0.max_size <= u32::MAX,
    ensures
        r is Some <==> state is Some,
        r is Some ==> r->0@ == state->0@.external(),
        r is Some ==> {
            &&& r->0.min == state->0.min
            &&& r->0.max == state->0.max
            &&& r->0.sum == state->0.sum
            &&& r->0.count == state->0.count
            &&& r->0.centroids@ == state->0.centroids@
            &&& r->0.max_buckets == state->0.max_size
        },
{
    tdigest_final(state)
}

/// A row without a value leaves the state as it is.
pub proof fn law_null_values_are_ignored<S>(state: Option<S>, size: i32)
    ensures
        step_with(state, size, entry_of(None)) == Transition::Keep(state),
{
}

/// A row with a NaN leaves the state as it is.
pub proof fn law_nan_values_are_ignored<S>(state: Option<S>, size: i32, value: Binary64)
    requires
        value.nan(),
    ensures
        step_with(state, size, entry_of(Some(value))) == Transition::Keep(state),
{
}

/// A row of the weighted aggregate with a null, a NaN, or a weight that is not positive leaves
/// the state as it is.
pub proof fn law_unusable_weights_are_ignored<S>(
    state: Option<S>,
    size: i32,
    value: Option<Binary64>,
    weight: Option<Binary64>,
)
    requires
        value is None || weight is None || value->0.nan() || weight->0.nan() || weight->0.le(of(0)),
    ensures
        step_with(state, size, weighted_entry_of(value, weight)) == Transition::Keep(state),
{
}

/// A missing state is neutral: putting it together with any state, on either side, gives that
/// state.
pub proof fn law_missing_state_is_neutral<S>(state: Option<S>)
    ensures
        combined(None, state) == Combination::Done(state),
        combined(state, None) == Combination::Done(state),
{
}

/// A row with a value pushes that value, once, into the state; the size is not looked at.
pub proof fn law_value_is_pushed<S>(state: S, size: i32, value: Binary64)
    requires
        !value.nan(),
    ensures
        step_with(Some(state), size, entry_of(Some(value))) == (Transition::Push {
            state,
            entry: Entry::Single(value),
        }),
{
}

/// The first value makes a builder of the given size, and is pushed into it.
pub proof fn law_first_value_starts_a_builder<S>(size: i32, value: Binary64)
    requires
        !value.nan(),
        size >= 0,
    ensures
        step_with(None::<S>, size, entry_of(Some(value))) == (Transition::<S>::Start {
            size: size as usize,
            entry: Entry::Single(value),
        }),
{
}

/// Two states are merged, the second into the first.
pub proof fn law_two_states_are_merged<S>(a: S, b: S)
    ensures
        combined(Some(a), Some(b)) == Combination::Merge(a, b),
{
}

/// What a step shows of a stored digest is what the digest holds, field by field.
pub proof fn law_rows_show_their_fields(state: InternalTDigest, value: TDigest)
    ensures
        state_view(None) is None,
        state_view(Some(state)) == Some(state@),
        row_view(None) is None,
        row_view(Some(&value)) is Some,
        row_view(Some(&value))->0.min == value.min,
        row_view(Some(&value))->0.max == value.max,
        row_view(Some(&value))->0.sum == value.sum,
        row_view(Some(&value))->0.count == value.count,
        row_view(Some(&value))->0.centroids == value.centroids@,
        row_view(Some(&value))->0.max_size == value.max_buckets,
{
}

} // verus!
