use tdigest_stats::aggregate::{weighted_tdigest_trans, Entry, Transition};
use tdigest_stats::binary64::Binary64;
use tdigest_stats::digest::{Centroid, TDigest};
use tdigest_stats::quantile::{
    _weighted_quantile, arrow_tdigest_approx_percentile, quantile_with_weights, tdigest_quantile,
    tdigest_quantile_weighted, AccessorApproxPercentile,
};

fn number(x: f64) -> Binary64 {
    Binary64::from_bits(x.to_bits())
}

fn float(x: Binary64) -> f64 {
    f64::from_bits(x.to_bits())
}

fn powf(x: Binary64, p: Binary64) -> Binary64 {
    number(float(x).powf(float(p)))
}

fn apx_eql(value: f64, expected: f64, error: f64) {
    assert!(
        (value - expected).abs() < error,
        "Float value {value} differs from expected {expected} by more than {error}"
    );
}

fn digest(max_buckets: u32, pairs: &[(f64, u64)]) -> TDigest {
    let count: u64 = pairs.iter().map(|p| p.1).sum();
    let sum: f64 = pairs.iter().map(|p| p.0 * p.1 as f64).sum();
    TDigest {
        buckets: pairs.len() as u32,
        max_buckets,
        count,
        sum: number(sum),
        min: number(pairs.first().map_or(0.0, |p| p.0)),
        max: number(pairs.last().map_or(0.0, |p| p.0)),
        centroids: pairs.iter().map(|p| Centroid::new(number(p.0), p.1)).collect(),
    }
}

fn series(start: f64, stop: f64, step: f64) -> Vec<(f64, u64)> {
    let mut out = Vec::new();
    let mut i = 0;
    while start + i as f64 * step <= stop {
        out.push((start + i as f64 * step, 1));
        i += 1;
    }
    out
}

/// A digest of size 100 of the integers from 1 to 100.
fn hundred() -> TDigest {
    let mut pairs: Vec<(f64, u64)> = (1..=51).map(|i| (i as f64, 1)).collect();
    for mean in [52.5, 54.5, 56.5, 58.5, 60.5, 62.5] {
        pairs.push((mean, 2));
    }
    for (mean, weight) in [
        (64.0, 1),
        (65.5, 2),
        (67.5, 2),
        (69.0, 1),
        (70.5, 2),
        (72.0, 1),
        (73.5, 2),
        (75.0, 1),
        (76.0, 1),
        (77.5, 2),
        (79.0, 1),
        (80.0, 1),
        (81.5, 2),
    ] {
        pairs.push((mean, weight));
    }
    pairs.extend((83..=100).map(|i| (i as f64, 1)));
    digest(100, &pairs)
}

fn at(q: f64, d: &TDigest) -> f64 {
    float(tdigest_quantile(number(q), d))
}

fn at_weighted(q: f64, d: &TDigest, power: f64) -> f64 {
    float(tdigest_quantile_weighted(number(q), d, number(power), powf))
}

#[test]
fn test_tdigest_small_count() {
    let d = hundred();
    assert_eq!(d.centroids.len(), 88);
    assert_eq!(d.count, 100);
    assert_eq!(at(0.99, &d), 99.5);
}

#[test]
fn test_tdigest_io() {
    assert_eq!(at(0.90, &hundred()), 90.5);
}

#[test]
fn test_approx_percentile_weight_power_x3() {
    let d50 = at_weighted(0.5, &digest(100, &[(1.0, 1), (3.0, 1)]), 3.0);
    assert!(d50 >= 2.5, "weighted median should shift toward larger value, got {d50}");
    // 13 of 27 parts into the second centroid, half a part of the gap of 2 before its mean.
    assert_eq!(d50, 3.0 + (13.0 / 27.0 - 0.5) * 2.0);
}

#[test]
fn test_approx_percentile_weight_power_0_not_changed() {
    let d = digest(100, &series(0.01, 99.99, 1.0));
    apx_eql(at(0.5, &d), at_weighted(0.5, &d, 0.0), 0.0001);
    assert_eq!(at(0.5, &d), at_weighted(0.5, &d, -0.0));
}

#[test]
fn test_weighted_tdigest_identity() {
    let values = series(0.01, 99.99, 1.0);
    let mut weighted: Vec<(f64, u64)> = Vec::new();
    for (v, _) in &values {
        match weighted_tdigest_trans(Some(()), 100, Some(number(*v)), Some(number(1.0))) {
            Transition::Push { entry: Entry::Weighted(x, w), .. } => weighted.push((float(x), w)),
            other => panic!("unexpected {other:?}"),
        }
    }
    assert_eq!(weighted, values);
    apx_eql(at(0.5, &digest(100, &weighted)), at(0.5, &digest(100, &values)), 0.001);
}

#[test]
fn test_weighted_tdigest_round_not_truncate() {
    let step = weighted_tdigest_trans::<()>(None, 100, Some(number(1.0)), Some(number(0.9)));
    let (size, value, weight) = match step {
        Transition::Start { size, entry: Entry::Weighted(x, w) } => (size, float(x), w),
        other => panic!("unexpected {other:?}"),
    };
    assert_eq!((size, value, weight), (100, 1.0, 1));
    let result = at(0.5, &digest(100, &[(value, weight)]));
    assert!((result - 1.0).abs() < 0.01, "weight=0.9 should round to 1, got {result}");
}

#[test]
fn test_write_time_vs_query_time_weighting() {
    let values = series(0.5, 100.0, 0.5);
    let cubed: Vec<(f64, u64)> =
        values.iter().map(|p| (p.0, p.0.powf(3.0).round() as u64)).collect();
    let write_time = at(0.5, &digest(200, &cubed));
    let query_time = at_weighted(0.5, &digest(200, &values), 3.0);
    let diff = (write_time - query_time).abs() / write_time.abs().max(1.0);
    assert!(diff < 0.02, "write-time vs query-time relative diff: {diff}");
}

#[test]
fn quantile_of_nothing_is_zero() {
    assert_eq!(at(0.5, &digest(100, &[])), 0.0);
    assert_eq!(at_weighted(0.5, &digest(100, &[]), 2.0), 0.0);
}

#[test]
fn quantile_of_one_centroid_is_its_mean() {
    let d = digest(100, &[(200.0, 3)]);
    for q in [-1.0, 0.0, 0.1, 0.5, 0.9, 1.0, 2.0, f64::NAN] {
        assert_eq!(at(q, &d), 200.0);
        assert_eq!(at_weighted(q, &d, 3.0), 200.0);
    }
}

#[test]
fn outer_quantiles_are_the_outer_means() {
    let d = digest(100, &[(-5.0, 1), (2.0, 4), (7.0, 2)]);
    assert_eq!(at(0.0, &d), -5.0);
    assert_eq!(at(-3.0, &d), -5.0);
    assert_eq!(at(1.0, &d), 7.0);
    assert_eq!(at(1.5, &d), 7.0);
    assert_eq!(at(f64::NAN, &d), 7.0);
}

#[test]
fn values_lie_evenly_on_each_side_of_a_mean() {
    // Weights 2, 4 and 2: the cells end at 5 and 20.
    let d = digest(100, &[(0.0, 2), (10.0, 4), (30.0, 2)]);
    assert_eq!(at(1.0 / 8.0, &d), 0.0);
    assert_eq!(at(2.0 / 8.0, &d), 5.0);
    assert_eq!(at(3.0 / 8.0, &d), 7.5);
    assert_eq!(at(4.0 / 8.0, &d), 10.0);
    assert_eq!(at(5.0 / 8.0, &d), 15.0);
    assert_eq!(at(6.0 / 8.0, &d), 20.0);
    assert_eq!(at(7.0 / 8.0, &d), 30.0);
}

#[test]
fn quantiles_never_go_down() {
    let uneven = digest(100, &[(0.0, 1), (10.0, 7), (11.0, 1), (11.0, 2), (50.0, 1), (51.5, 30)]);
    for d in [&uneven, &hundred()] {
        for power in [0.0, 0.5, 3.0] {
            let mut last = f64::NEG_INFINITY;
            for i in 0..=1000 {
                let x = at_weighted(i as f64 / 1000.0, d, power);
                assert!(x >= last, "{x} after {last}");
                last = x;
            }
        }
    }
}

#[test]
fn powers_are_not_looked_at_without_a_weight_power() {
    let d = hundred();
    let none: Vec<Binary64> = Vec::new();
    let r = _weighted_quantile(&d.centroids, number(0.9), number(0.0), &none);
    assert_eq!(float(r), 90.5);
}

#[test]
fn weights_can_be_given() {
    let d = digest(100, &[(1.0, 1), (3.0, 1)]);
    let weights = vec![number(1.0), number(27.0)];
    let r = quantile_with_weights(&d.centroids, &weights, number(0.5));
    assert_eq!(float(r), 3.0 + (13.0 / 27.0 - 0.5) * 2.0);
}

#[test]
fn accessor_asks_for_the_percentile() {
    let accessor = AccessorApproxPercentile { percentile: number(0.99) };
    assert_eq!(float(arrow_tdigest_approx_percentile(&hundred(), accessor)), 99.5);
}

#[test]
fn quantiles_weighted_when_written_are_quantiles_weighted_when_queried() {
    let values: Vec<(f64, u64)> = (1..=40).map(|i| (i as f64, 1)).collect();
    let cubed: Vec<(f64, u64)> = (1..=40u64).map(|i| (i as f64, i * i * i)).collect();
    for i in 0..=100 {
        let q = i as f64 / 100.0;
        assert_eq!(at(q, &digest(100, &cubed)), at_weighted(q, &digest(100, &values), 3.0));
    }
}
