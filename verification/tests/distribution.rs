use tdigest_stats::binary64::Binary64;
use tdigest_stats::digest::{Centroid, InternalTDigest, TDigest};
use tdigest_stats::distribution::{
    _weighted_cumulative_at, arrow_tdigest_approx_cdf, arrow_tdigest_approx_rank,
    cumulative_with_weights, share, tdigest_approx_cdf, tdigest_approx_cdf_weighted,
    tdigest_quantile_at_value, tdigest_quantile_at_value_weighted, weighted_rank,
    AccessorApproxCdf, AccessorApproxPercentileRank,
};
use tdigest_stats::quantile::{quantile_with_weights, tdigest_quantile_weighted};

fn number(x: f64) -> Binary64 {
    Binary64::from_bits(x.to_bits())
}

fn float(x: Binary64) -> f64 {
    f64::from_bits(x.to_bits())
}

fn powf(x: Binary64, p: Binary64) -> Binary64 {
    number(float(x).powf(float(p)))
}

fn apx_eql(value: f64, expected: f64, error: f64) {
    assert!(
        (value - expected).abs() < error,
        "Float value {value} differs from expected {expected} by more than {error}"
    );
}

/// The share of values up to a value, each centroid taken as a whole.
fn estimate(d: &InternalTDigest, value: Binary64) -> Binary64 {
    let up_to: u64 = d
        .centroids
        .iter()
        .filter(|c| float(c.mean) <= float(value))
        .map(|c| c.weight)
        .sum();
    number(up_to as f64 / d.count as f64)
}

fn digest(pairs: &[(f64, u64)]) -> TDigest {
    TDigest {
        buckets: pairs.len() as u32,
        max_buckets: 100,
        count: pairs.iter().map(|p| p.1).sum(),
        sum: number(pairs.iter().map(|p| p.0 * p.1 as f64).sum()),
        min: number(pairs.first().map_or(0.0, |p| p.0)),
        max: number(pairs.last().map_or(0.0, |p| p.0)),
        centroids: pairs.iter().map(|p| Centroid::new(number(p.0), p.1)).collect(),
    }
}

fn series(start: f64, stop: f64, step: f64) -> Vec<(f64, u64)> {
    let mut out = Vec::new();
    let mut i = 0;
    while start + i as f64 * step <= stop {
        out.push((start + i as f64 * step, 1));
        i += 1;
    }
    out
}

fn cdf(value: f64, d: &TDigest) -> f64 {
    float(tdigest_approx_cdf(number(value), d, estimate))
}

fn weighted_cdf(value: f64, d: &TDigest, power: f64) -> f64 {
    float(tdigest_approx_cdf_weighted(number(value), d, number(power), powf, estimate))
}

fn percentile(q: f64, d: &TDigest, power: f64) -> f64 {
    float(tdigest_quantile_weighted(number(q), d, number(power), powf))
}

#[test]
fn test_tdigest_approx_cdf() {
    let d = digest(&series(0.01, 100.0, 0.01));
    apx_eql(cdf(50.0, &d), 0.5, 0.01);
    apx_eql(cdf(0.0, &d), 0.0, 0.001);
    apx_eql(cdf(100.0, &d), 1.0, 0.001);
    apx_eql(cdf(80.0, &d) - cdf(20.0, &d), 0.6, 0.01);
    let arrow = arrow_tdigest_approx_cdf(&d, AccessorApproxCdf { value: number(50.0) }, estimate);
    apx_eql(float(arrow), 0.5, 0.01);
}

#[test]
fn test_approx_cdf_weight_power_0() {
    let d = digest(&series(0.01, 99.99, 1.0));
    apx_eql(cdf(50.0, &d), weighted_cdf(50.0, &d, 0.0), 0.0001);
}

#[test]
fn test_approx_cdf_weighted_basic() {
    let d = digest(&series(1.0, 99.0, 1.0));
    let r = weighted_cdf(50.0, &d, 3.0);
    assert!(r > 0.0 && r < 1.0, "weighted cdf should be in (0,1), got {r}");
}

#[test]
fn test_approx_cdf_percentile_consistency() {
    let d = digest(&series(1.0, 99.0, 1.0));
    apx_eql(weighted_cdf(percentile(0.5, &d, 3.0), &d, 3.0), 0.5, 0.01);
}

#[test]
fn test_approx_cdf_percentile_consistency_multiple_quantiles() {
    let d = digest(&series(1.0, 99.0, 1.0));
    apx_eql(weighted_cdf(percentile(0.1, &d, 3.0), &d, 3.0), 0.1, 0.01);
    apx_eql(weighted_cdf(percentile(0.9, &d, 3.0), &d, 3.0), 0.9, 0.01);
}

#[test]
fn test_approx_cdf_weighted_single_centroid() {
    let d = digest(&[(200.0, 1)]);
    let below = weighted_cdf(0.0, &d, 3.0);
    assert!((below - 0.0).abs() < 1e-10, "CDF below single centroid should be 0, got {below}");
    let at = weighted_cdf(200.0, &d, 3.0);
    assert!(!at.is_nan(), "CDF at centroid mean should not be NaN");
    let above = weighted_cdf(999.0, &d, 3.0);
    assert!((above - 1.0).abs() < 1e-10, "CDF above single centroid should be 1, got {above}");
}

#[test]
fn test_approx_cdf_percentile_consistency_single_centroid() {
    let d = digest(&[(200.0, 1)]);
    for q in [0.1, 0.5, 0.9] {
        let r = weighted_cdf(percentile(q, &d, 3.0), &d, 3.0);
        assert!(!r.is_nan(), "single-centroid consistency at q={q} should not be NaN");
        assert!((r - 1.0).abs() < 0.01, "single-centroid cdf at q={q} should be ~1, got {r}");
    }
}

#[test]
fn test_approx_cdf_single_value() {
    let d = digest(&[(42.0, 1)]);
    for power in [0.0, 1.0] {
        let below = weighted_cdf(41.9, &d, power);
        assert!((below - 0.0).abs() < 1e-10, "CDF below single value should be 0, got {below}");
        let at = weighted_cdf(42.0, &d, power);
        assert!(!at.is_nan(), "CDF at single value should not be NaN");
        assert!((at - 1.0).abs() < 0.01, "CDF at single value should be ~1, got {at}");
        let above = weighted_cdf(42.1, &d, power);
        assert!((above - 1.0).abs() < 1e-10, "CDF above single value should be 1, got {above}");
    }
}

#[test]
fn weight_lies_evenly_on_each_side_of_a_mean() {
    // Weights 2, 4 and 2: the cells end at 5 and 20.
    let d = digest(&[(0.0, 2), (10.0, 4), (30.0, 2)]);
    let weights = vec![number(2.0), number(4.0), number(2.0)];
    for (value, reached) in [
        (-0.001, 0.0),
        (0.0, 1.0),
        (2.5, 1.5),
        (5.0, 2.0),
        (7.5, 3.0),
        (10.0, 4.0),
        (15.0, 5.0),
        (20.0, 6.0),
        (25.0, 6.5),
        (30.0, 8.0),
        (31.0, 8.0),
    ] {
        let (c, all) = cumulative_with_weights(&d.centroids, &weights, number(value));
        assert_eq!((float(c), float(all)), (reached, 8.0), "at {value}");
        let r = weighted_rank(&d.centroids, number(value), number(0.0), &weights);
        assert_eq!(float(r), reached / 8.0);
    }
    let (c, _) = cumulative_with_weights(&d.centroids, &weights, number(f64::NAN));
    assert_eq!(float(c), 8.0);
}

#[test]
fn shares_never_go_down_and_stay_in_range() {
    let d = digest(&[(0.0, 1), (10.0, 7), (11.0, 1), (11.0, 2), (50.0, 1), (51.5, 30)]);
    for power in [0.5, 3.0] {
        let mut last = 0.0;
        for i in -100..=700 {
            let r = weighted_cdf(i as f64 / 10.0, &d, power);
            assert!(r >= last && r <= 1.0, "{r} after {last}");
            last = r;
        }
        assert_eq!(last, 1.0);
    }
}

#[test]
fn share_at_a_quantile_is_within_one_centroid() {
    let pairs = [(1.0, 3), (2.0, 10), (4.0, 1), (8.0, 6)];
    let d = digest(&pairs);
    let total: f64 = pairs.iter().map(|p| p.1 as f64 * p.0).sum();
    for i in 1..100 {
        let q = i as f64 / 100.0;
        let reached = weighted_cdf(percentile(q, &d, 1.0), &d, 1.0) * total;
        let target = q * total;
        let mut before = 0.0;
        for p in pairs {
            let after = before + p.1 as f64 * p.0;
            if target <= after {
                assert!(reached >= before - 1e-9 && reached <= after + 1e-9);
                break;
            }
            before = after;
        }
    }
}

#[test]
fn rank_without_weight_power_is_the_estimate() {
    let d = digest(&series(1.0, 10.0, 1.0));
    let r = tdigest_quantile_at_value(number(3.5), &d, estimate);
    assert_eq!(float(r), 0.3);
    let accessor = AccessorApproxPercentileRank { value: number(3.5) };
    assert_eq!(float(arrow_tdigest_approx_rank(&d, accessor, estimate)), 0.3);
    let weighted =
        tdigest_quantile_at_value_weighted(number(3.5), &d, number(0.0), powf, estimate);
    assert_eq!(float(weighted), 0.3);
}

#[test]
fn no_weight_has_no_share() {
    let d = digest(&[(0.0, 1), (0.0, 2)]);
    assert_eq!(weighted_cdf(5.0, &d, 2.0), 0.0);
    assert_eq!(float(share(number(3.0), number(0.0))), 0.0);
    assert_eq!(float(share(number(3.0), number(4.0))), 0.75);
}

#[test]
fn powers_weight_the_means() {
    let d = digest(&[(1.0, 1), (2.0, 3), (3.0, 1)]);
    let powers = vec![number(1.0), number(4.0), number(9.0)];
    let (c, all) = _weighted_cumulative_at(&d.centroids, number(1.5), number(2.0), &powers);
    assert_eq!((float(c), float(all)), (1.0, 22.0));
    let none: Vec<Binary64> = Vec::new();
    let (c, all) = _weighted_cumulative_at(&d.centroids, number(1.5), number(0.0), &none);
    assert_eq!((float(c), float(all)), (1.0, 5.0));
}

#[test]
fn quantiles_and_shares_undo_each_other_inside() {
    let pairs = [(0.0, 3), (1.0, 5), (2.5, 4), (2.75, 9), (7.0, 6)];
    let d = digest(&pairs);
    let weights: Vec<Binary64> = pairs.iter().map(|p| number(p.1 as f64)).collect();
    for i in 1..100 {
        let target = 27.0 * i as f64 / 100.0;
        if 3.0 < target && target < 21.0 {
            let value = quantile_with_weights(&d.centroids, &weights, number(i as f64 / 100.0));
            let reached = float(cumulative_with_weights(&d.centroids, &weights, value).0);
            assert!((reached - target).abs() < 1e-13, "{reached} at {target}");
        }
    }
}

#[test]
fn quantiles_and_shares_undo_each_other_at_the_ends() {
    // The second half of the first centroid and the first half of the last.
    let pairs = [(0.0, 4), (10.0, 6)];
    let d = digest(&pairs);
    let weights = vec![number(4.0), number(6.0)];
    for i in 20..70 {
        let value = quantile_with_weights(&d.centroids, &weights, number(i as f64 / 100.0));
        let reached = float(cumulative_with_weights(&d.centroids, &weights, value).0);
        assert!((reached - i as f64 / 10.0).abs() < 1e-13, "{reached} at {i}");
    }
    // The outer halves lie at the outer means.
    for i in 1..20 {
        let value = quantile_with_weights(&d.centroids, &weights, number(i as f64 / 100.0));
        assert_eq!(float(value), 0.0);
    }
    for i in 70..100 {
        let value = quantile_with_weights(&d.centroids, &weights, number(i as f64 / 100.0));
        assert_eq!(float(value), 10.0);
    }
}

#[test]
fn shares_weighted_when_written_are_shares_weighted_when_queried() {
    let values: Vec<(f64, u64)> = (1..=40).map(|i| (i as f64, 1)).collect();
    let cubed: Vec<(f64, u64)> = (1..=40u64).map(|i| (i as f64, i * i * i)).collect();
    let written = digest(&cubed);
    let counts: Vec<Binary64> = cubed.iter().map(|p| number(p.1 as f64)).collect();
    for i in 0..90 {
        let x = number(i as f64 / 2.0);
        let (part, all) = cumulative_with_weights(&written.centroids, &counts, x);
        let queried =
            tdigest_approx_cdf_weighted(x, &digest(&values), number(3.0), powf, estimate);
        assert_eq!(queried, share(part, all));
    }
}
