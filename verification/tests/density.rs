use tdigest_stats::binary64::Binary64;
use tdigest_stats::density::{
    _tdigest_to_pdf_inner, density_from_shares, step, tdigest_to_pdf, tdigest_to_pdf_weighted,
    weighted_density,
};
use tdigest_stats::digest::{Centroid, InternalTDigest, TDigest};
use tdigest_stats::distribution::cumulative_with_weights;

fn number(x: f64) -> Binary64 {
    Binary64::from_bits(x.to_bits())
}

fn float(x: Binary64) -> f64 {
    f64::from_bits(x.to_bits())
}

fn powf(x: Binary64, p: Binary64) -> Binary64 {
    number(float(x).powf(float(p)))
}

fn apx_eql(value: f64, expected: f64, error: f64) {
    assert!(
        (value - expected).abs() < error,
        "Float value {value} differs from expected {expected} by more than {error}"
    );
}

/// The share of values up to a value, each centroid taken as a whole.
fn estimate(d: &InternalTDigest, value: Binary64) -> Binary64 {
    let up_to: u64 = d
        .centroids
        .iter()
        .filter(|c| float(c.mean) <= float(value))
        .map(|c| c.weight)
        .sum();
    number(up_to as f64 / d.count as f64)
}

fn digest(pairs: &[(f64, u64)]) -> TDigest {
    TDigest {
        buckets: pairs.len() as u32,
        max_buckets: 100,
        count: pairs.iter().map(|p| p.1).sum(),
        sum: number(pairs.iter().map(|p| p.0 * p.1 as f64).sum()),
        min: number(pairs.first().map_or(0.0, |p| p.0)),
        max: number(pairs.last().map_or(0.0, |p| p.0)),
        centroids: pairs.iter().map(|p| Centroid::new(number(p.0), p.1)).collect(),
    }
}

fn series(start: f64, stop: f64, step: f64) -> TDigest {
    let mut pairs = Vec::new();
    let mut i = 0;
    while start + i as f64 * step <= stop {
        pairs.push((start + i as f64 * step, 1));
        i += 1;
    }
    digest(&pairs)
}

fn pdf(d: &TDigest, n: i32, low: f64, high: f64) -> Vec<f64> {
    tdigest_to_pdf(d, n, number(low), number(high), estimate).into_iter().map(float).collect()
}

fn weighted(d: &TDigest, n: i32, low: f64, high: f64, power: f64) -> Vec<f64> {
    tdigest_to_pdf_weighted(d, n, number(low), number(high), number(power), powf, estimate)
        .into_iter()
        .map(float)
        .collect()
}

#[test]
fn test_tdigest_to_pdf_basic() {
    let r = pdf(&series(0.01, 99.99, 1.0), 100, 0.0, 100.0);
    assert_eq!(r.len(), 100);
    apx_eql(r.iter().sum(), 100.0, 0.5);
}

#[test]
fn test_tdigest_to_pdf_empty() {
    let r = pdf(&digest(&[]), 100, 0.0, 100.0);
    assert_eq!(r.len(), 100);
    for &v in r.iter() {
        assert!((v - 0.0).abs() < 1e-10);
    }
    assert_eq!(weighted(&digest(&[]), 3, 0.0, 1.0, 2.0), vec![0.0, 0.0, 0.0]);
}

#[test]
fn test_tdigest_to_pdf_single_centroid() {
    let r = pdf(&digest(&[(50.0, 1)]), 100, 0.0, 100.0);
    assert_eq!(r.len(), 100);
    apx_eql(r.iter().sum(), 100.0, 0.5);
    let nonzero = r.iter().filter(|&&v| v > 0.0).count();
    assert!(nonzero > 0, "single centroid should produce at least one nonzero bin");
}

#[test]
fn test_tdigest_to_pdf_weight_power_0() {
    let d = series(0.01, 99.99, 1.0);
    let plain = pdf(&d, 50, 0.0, 100.0);
    let with_power = weighted(&d, 50, 0.0, 100.0, 0.0);
    assert_eq!(plain.len(), with_power.len());
    for (a, b) in plain.iter().zip(with_power.iter()) {
        apx_eql(*a, *b, 0.0001);
    }
}

#[test]
fn test_tdigest_to_pdf_sum_equals_100() {
    let sum: f64 = pdf(&series(0.01, 99.99, 1.0), 200, 0.0, 100.0).iter().sum();
    assert!((sum - 100.0).abs() < 0.1, "sum(pdf) = {sum}, expected 100.0 ± 0.1");
}

#[test]
fn test_tdigest_to_pdf_weighted() {
    let r = weighted(&series(1.0, 99.0, 1.0), 100, 0.0, 100.0, 3.0);
    assert_eq!(r.len(), 100);
    apx_eql(r.iter().sum(), 100.0, 0.5);
    let nonzero = r.iter().filter(|&&v| v > 0.0).count();
    assert!(nonzero > 0, "weighted pdf should produce nonzero bins");
}

#[test]
fn test_tdigest_to_pdf_weighted_single_centroid() {
    let r = weighted(&digest(&[(200.0, 1)]), 100, 0.0, 400.0, 3.0);
    assert_eq!(r.len(), 100);
    let sum: f64 = r.iter().sum();
    assert!((sum - 100.0).abs() < 0.5, "weighted single-centroid PDF sum = {sum}, expected 100");
    let nonzero = r.iter().filter(|&&v| v > 0.0).count();
    assert!(nonzero > 0, "should have at least one nonzero bin");
}

#[test]
fn test_tdigest_to_pdf_out_of_range() {
    let d = series(1.0, 100.0, 1.0);
    let r = pdf(&d, 100, -1000.0, -900.0);
    assert_eq!(r.len(), 100);
    let sum: f64 = r.iter().sum();
    assert!((sum - 0.0).abs() < 1e-10, "PDF left of data should sum to 0, got {sum}");
    let mid_sum: f64 = pdf(&d, 100, 0.0, 200.0).iter().sum();
    assert!((mid_sum - 100.0).abs() < 0.5, "PDF covering data should sum to ~100, got {mid_sum}");
}

#[test]
fn test_tdigest_to_pdf_weighted_consistency_with_histogram() {
    let r = weighted(&series(1.0, 99.0, 1.0), 100, 0.0, 100.0, 3.0);
    apx_eql(r.iter().sum(), 100.0, 0.5);
    let nonzero = r.iter().filter(|&&v| v > 0.0).count();
    assert!(nonzero > 50, "weighted pdf should have >50 nonzero bins, got {nonzero}");
}

#[test]
fn no_points_make_no_bins() {
    let d = series(1.0, 10.0, 1.0);
    assert_eq!(pdf(&d, 0, 0.0, 1.0), Vec::<f64>::new());
    assert_eq!(pdf(&d, -3, 0.0, 1.0), Vec::<f64>::new());
    assert_eq!(weighted(&d, i32::MIN, 0.0, 1.0, 1.0), Vec::<f64>::new());
}

#[test]
fn bins_hold_the_percentage_between_their_edges() {
    // Weights 2, 4 and 2: the cells end at 5 and 20.
    let d = digest(&[(0.0, 2), (10.0, 4), (30.0, 2)]);
    let weights = vec![number(2.0), number(4.0), number(2.0)];
    let dx = step(4, number(-10.0), number(30.0));
    assert_eq!(float(dx), 10.0);
    let r = weighted_density(&d.centroids, &weights, 4, number(-10.0), dx);
    let r: Vec<f64> = r.into_iter().map(float).collect();
    assert_eq!(r, vec![12.5, 37.5, 25.0, 25.0]);
}

#[test]
fn weighted_bins_are_percentages() {
    for power in [0.5, 1.0, 3.0] {
        for v in weighted(&series(1.0, 99.0, 1.0), 333, -10.0, 120.0, power) {
            assert!((0.0..=100.0).contains(&v), "{v}");
        }
    }
}

#[test]
fn no_weight_makes_zero_bins() {
    assert_eq!(weighted(&digest(&[(0.0, 4)]), 2, -1.0, 1.0, 2.0), vec![0.0, 0.0]);
}

#[test]
fn shares_become_percentages() {
    let lows = vec![number(0.0), number(0.25)];
    let highs = vec![number(0.25), number(1.0)];
    let r: Vec<f64> = density_from_shares(&lows, &highs).into_iter().map(float).collect();
    assert_eq!(r, vec![25.0, 75.0]);
}

#[test]
fn estimates_are_asked_for_at_the_edges() {
    let d = series(1.0, 10.0, 1.0);
    let r = _tdigest_to_pdf_inner(
        &d,
        2,
        number(0.0),
        number(10.0),
        number(0.0),
        powf,
        |_d: &InternalTDigest, x: Binary64| number(float(x) * float(x) / 100.0),
    );
    assert_eq!(r.into_iter().map(float).collect::<Vec<f64>>(), vec![25.0, 75.0]);
}

#[test]
fn bins_add_up_to_the_share_between_the_ends() {
    let d = digest(&[(0.0, 3), (1.0, 5), (2.5, 4), (7.0, 6)]);
    let weights = vec![number(3.0), number(5.0), number(4.0), number(6.0)];
    for (low, high) in [(-1.0, 8.0), (0.3, 5.0), (2.5, 2.5), (-9.0, 1.75)] {
        for n in [1, 7, 100] {
            let dx = step(n, number(low), number(high));
            let sum: f64 = weighted_density(&d.centroids, &weights, n, number(low), dx)
                .into_iter()
                .map(float)
                .sum();
            let share = |x: f64| {
                let (part, all) = cumulative_with_weights(&d.centroids, &weights, number(x));
                float(part) / float(all)
            };
            let expected = 100.0 * (share(low + n as f64 * float(dx)) - share(low));
            assert!((sum - expected).abs() < n as f64 * 1e-12, "{sum} and {expected}");
        }
    }
}

#[test]
fn bins_over_everything_add_up_to_a_hundred_and_bins_beside_it_to_nothing() {
    let d = series(1.0, 99.0, 1.0);
    for power in [1.0, 3.0] {
        let all: f64 = weighted(&d, 333, 0.0, 100.0, power).iter().sum();
        assert!((all - 100.0).abs() < 1e-9, "{all}");
        let left: f64 = weighted(&d, 50, -20.0, 0.5, power).iter().sum();
        assert_eq!(left, 0.0);
        let right: f64 = weighted(&d, 50, 99.0, 300.0, power).iter().sum();
        assert_eq!(right, 0.0);
    }
}

#[test]
fn estimated_bins_add_up() {
    let shares: Vec<f64> = (0..=10).map(|i| (i * i) as f64 / 128.0).collect();
    let lows: Vec<Binary64> = shares[..10].iter().map(|s| number(*s)).collect();
    let highs: Vec<Binary64> = shares[1..].iter().map(|s| number(*s)).collect();
    let sum: f64 = density_from_shares(&lows, &highs).into_iter().map(float).sum();
    assert_eq!(sum, 78.125);
}

#[test]
fn each_bin_is_the_share_between_its_edges() {
    let d = digest(&[(0.0, 3), (1.0, 5), (2.5, 4), (7.0, 6)]);
    let share = |weights: &Vec<Binary64>, x: f64| {
        let (part, all) = cumulative_with_weights(&d.centroids, weights, number(x));
        float(part) / float(all)
    };
    let counts = vec![number(3.0), number(5.0), number(4.0), number(6.0)];
    let mixed = vec![number(-3.0), number(5.0), number(-1.0), number(6.0)];
    for weights in [counts, mixed] {
        for (low, high) in [(-1.0, 8.0), (8.0, -1.0), (0.3, 5.0)] {
            let dx = step(9, number(low), number(high));
            let r = weighted_density(&d.centroids, &weights, 9, number(low), dx);
            for (i, bin) in r.into_iter().enumerate() {
                let a = share(&weights, low + i as f64 * float(dx));
                let b = share(&weights, low + (i + 1) as f64 * float(dx));
                apx_eql(float(bin), 100.0 * (b - a), 1e-12);
            }
        }
    }
}
