use tdigest_stats::aggregate::{
    tdigest_combine_inner, tdigest_compound_combine_inner, tdigest_compound_final,
    tdigest_compound_trans_inner, tdigest_final, tdigest_trans_inner, weighted_tdigest_trans,
    Combination, Entry, Transition,
};
use tdigest_stats::binary64::Binary64;
use tdigest_stats::digest::{Centroid, InternalTDigest, TDigest};

fn number(x: f64) -> Binary64 {
    Binary64::from_bits(x.to_bits())
}

fn internal(mean: f64, max_size: usize) -> InternalTDigest {
    InternalTDigest::new(
        vec![Centroid::new(number(mean), 1)],
        number(mean),
        1,
        number(mean),
        number(mean),
        max_size,
    )
}

fn stored(mean: f64, max_buckets: u32) -> TDigest {
    TDigest::from_internal_tdigest(&internal(mean, max_buckets as usize))
}

#[test]
fn first_value_starts_a_builder() {
    match tdigest_trans_inner::<u8>(None, 100, Some(number(14.0))) {
        Transition::Start { size, entry } => {
            assert_eq!((size, entry), (100, Entry::Single(number(14.0))));
        }
        other => panic!("unexpected {other:?}"),
    }
}

#[test]
fn later_values_are_pushed() {
    match tdigest_trans_inner(Some(7u8), -1, Some(number(f64::NEG_INFINITY))) {
        Transition::Push { state, entry } => {
            assert_eq!((state, entry), (7, Entry::Single(number(f64::NEG_INFINITY))));
        }
        other => panic!("unexpected {other:?}"),
    }
}

#[test]
fn nulls_and_nans_change_nothing() {
    for value in [None, Some(number(f64::NAN)), Some(number(-f64::NAN))] {
        match tdigest_trans_inner(Some(7u8), 100, value) {
            Transition::Keep(state) => assert_eq!(state, Some(7)),
            other => panic!("unexpected {other:?}"),
        }
        match tdigest_trans_inner::<u8>(None, -5, value) {
            Transition::Keep(state) => assert_eq!(state, None),
            other => panic!("unexpected {other:?}"),
        }
    }
}

#[test]
fn unusable_weights_change_nothing() {
    let one = Some(number(1.0));
    for (value, weight) in [
        (None, one),
        (one, None),
        (Some(number(f64::NAN)), one),
        (one, Some(number(f64::NAN))),
        (one, Some(number(0.0))),
        (one, Some(number(-0.0))),
        (one, Some(number(-3.0))),
        (one, Some(number(f64::NEG_INFINITY))),
    ] {
        match weighted_tdigest_trans(Some(7u8), 100, value, weight) {
            Transition::Keep(state) => assert_eq!(state, Some(7)),
            other => panic!("unexpected {other:?}"),
        }
    }
}

#[test]
fn weights_are_rounded() {
    for (weight, count) in [
        (0.2, 0),
        (0.49999999999999994, 0),
        (0.5, 1),
        (0.9, 1),
        (1.0, 1),
        (1.5, 2),
        (2.5, 3),
        (4503599627370495.5, 4503599627370496),
        (9007199254740991.0, 9007199254740991),
        (1e19, 10000000000000000000),
        (1e300, u64::MAX),
        (f64::INFINITY, u64::MAX),
    ] {
        assert_eq!(f64::round(weight) as u64, count);
        match weighted_tdigest_trans(Some(7u8), 100, Some(number(2.0)), Some(number(weight))) {
            Transition::Push { state, entry } => {
                assert_eq!((state, entry), (7, Entry::Weighted(number(2.0), count)));
            }
            other => panic!("unexpected {other:?}"),
        }
    }
}

#[test]
fn missing_states_are_neutral() {
    assert!(matches!(tdigest_combine_inner::<u8>(None, None), Combination::Done(None)));
    assert!(matches!(tdigest_combine_inner(None, Some(2u8)), Combination::Done(Some(2))));
    assert!(matches!(tdigest_combine_inner(Some(1u8), None), Combination::Done(Some(1))));
    assert!(matches!(tdigest_combine_inner(Some(1u8), Some(2u8)), Combination::Merge(1, 2)));
}

#[test]
fn rollups_merge_digests() {
    assert!(matches!(tdigest_compound_trans_inner(None, None), Combination::Done(None)));
    match tdigest_compound_trans_inner(None, Some(&stored(3.0, 20))) {
        Combination::Done(Some(d)) => {
            assert_eq!(d.centroids, vec![Centroid::new(number(3.0), 1)]);
            assert_eq!(d.max_size, 20);
        }
        other => panic!("unexpected {other:?}"),
    }
    match tdigest_compound_trans_inner(Some(internal(4.0, 20)), None) {
        Combination::Done(Some(d)) => assert_eq!(d.sum, number(4.0)),
        other => panic!("unexpected {other:?}"),
    }
    match tdigest_compound_trans_inner(Some(internal(4.0, 20)), Some(&stored(3.0, 20))) {
        Combination::Merge(a, b) => assert_eq!((a.sum, b.sum), (number(4.0), number(3.0))),
        other => panic!("unexpected {other:?}"),
    }
    match tdigest_compound_combine_inner(Some(internal(4.0, 20)), Some(internal(5.0, 20))) {
        Combination::Merge(a, b) => assert_eq!((a.sum, b.sum), (number(4.0), number(5.0))),
        other => panic!("unexpected {other:?}"),
    }
    match tdigest_compound_combine_inner(None, Some(internal(5.0, 20))) {
        Combination::Done(Some(d)) => assert_eq!(d.sum, number(5.0)),
        other => panic!("unexpected {other:?}"),
    }
}

#[test]
fn nothing_seen_gives_no_digest() {
    assert!(tdigest_final(None).is_none());
    assert!(tdigest_compound_final(None).is_none());
}

#[test]
fn final_digest_holds_the_state() {
    let state = internal(3.5, 100);
    for d in [tdigest_final(Some(&state)).unwrap(), tdigest_compound_final(Some(&state)).unwrap()] {
        assert_eq!((d.buckets, d.max_buckets, d.count), (1, 100, 1));
        assert_eq!((d.sum, d.min, d.max), (number(3.5), number(3.5), number(3.5)));
        assert_eq!(d.centroids, state.centroids);
        let back = d.to_internal_tdigest();
        assert_eq!(back.centroids, state.centroids);
        assert_eq!(back.max_size, 100);
    }
}

#[test]
fn buckets_are_recounted() {
    let mut d = stored(3.5, 100);
    d.buckets = 17;
    let d = d.recounted();
    assert_eq!(d.buckets, 1);
    assert_eq!(d.max_buckets, 100);
}
