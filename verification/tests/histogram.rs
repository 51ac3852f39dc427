use tdigest_stats::binary64::Binary64;
use tdigest_stats::digest::{Centroid, TDigest};
use tdigest_stats::histogram::{
    _tdigest_to_histogram_inner, bin_of, locate, tdigest_to_histogram,
    tdigest_to_histogram_weighted, Place,
};

fn number(x: f64) -> Binary64 {
    Binary64::from_bits(x.to_bits())
}

fn float(x: Binary64) -> f64 {
    f64::from_bits(x.to_bits())
}

fn powf(x: Binary64, p: Binary64) -> Binary64 {
    number(float(x).powf(float(p)))
}

fn apx_eql(value: f64, expected: f64, error: f64) {
    assert!(
        (value - expected).abs() < error,
        "Float value {value} differs from expected {expected} by more than {error}"
    );
}

fn numbers(xs: &[f64]) -> Vec<Binary64> {
    xs.iter().map(|x| number(*x)).collect()
}

fn digest(pairs: &[(f64, u64)]) -> TDigest {
    TDigest {
        buckets: pairs.len() as u32,
        max_buckets: 100,
        count: pairs.iter().map(|p| p.1).sum(),
        sum: number(pairs.iter().map(|p| p.0 * p.1 as f64).sum()),
        min: number(pairs.first().map_or(0.0, |p| p.0)),
        max: number(pairs.last().map_or(0.0, |p| p.0)),
        centroids: pairs.iter().map(|p| Centroid::new(number(p.0), p.1)).collect(),
    }
}

fn hundred() -> TDigest {
    let pairs: Vec<(f64, u64)> = (0..100).map(|i| (0.01 + i as f64, 1)).collect();
    digest(&pairs)
}

fn histogram(d: &TDigest, edges: &[f64]) -> Vec<f64> {
    tdigest_to_histogram(d, &numbers(edges)).into_iter().map(float).collect()
}

fn weighted(d: &TDigest, edges: &[f64], power: f64) -> Vec<f64> {
    tdigest_to_histogram_weighted(d, &numbers(edges), number(power), powf)
        .into_iter()
        .map(float)
        .collect()
}

#[test]
fn test_tdigest_to_histogram() {
    let d = hundred();
    let edges = [0.0, 25.0, 50.0, 75.0, 100.0];
    let hist = histogram(&d, &edges);
    assert_eq!(hist.len(), 4);
    for &h in &hist {
        apx_eql(h, 25.0, 2.0);
    }
    let hist_one = histogram(&d, &[0.0, 100.0]);
    assert_eq!(hist_one.len(), 1);
    apx_eql(hist_one[0], 100.0, 0.01);
    let hist_single = histogram(&digest(&[(50.0, 1)]), &edges);
    assert_eq!(hist_single.len(), 4);
    let total_single: f64 = hist_single.iter().sum();
    apx_eql(total_single, 1.0, 0.01);
    let hist_total: f64 = hist.iter().sum();
    apx_eql(hist_total, 100.0, 0.01);
}

#[test]
fn test_tdigest_to_histogram_beyond_max_edge() {
    let d = digest(&[(50.0, 1), (150.0, 1)]);
    let hist = histogram(&d, &[0.0, 25.0, 50.0, 75.0, 100.0]);
    assert_eq!(hist.len(), 4);
    assert!(hist[2] > 0.0, "value=50 at exact edge should be in bin 2");
    assert!(hist[3] > 0.0, "value=150 beyond max edge should be clamped to last bin");
    assert_eq!(hist, vec![0.0, 0.0, 1.0, 1.0]);
}

#[test]
fn test_tdigest_to_histogram_weight_power_0_unchanged() {
    let d = hundred();
    let edges = [0.0, 25.0, 50.0, 75.0, 100.0];
    let plain = histogram(&d, &edges);
    let with_power = weighted(&d, &edges, 0.0);
    assert_eq!(plain.len(), with_power.len());
    for (a, b) in plain.iter().zip(with_power.iter()) {
        apx_eql(*a, *b, 0.0001);
    }
}

#[test]
fn too_few_edges_or_no_values_make_zeros() {
    let d = hundred();
    assert_eq!(histogram(&d, &[]), Vec::<f64>::new());
    assert_eq!(histogram(&d, &[1.0]), Vec::<f64>::new());
    assert_eq!(histogram(&digest(&[]), &[1.0, 2.0, 3.0]), vec![0.0, 0.0]);
    // Nothing is looked at, so even a NaN does not matter.
    assert_eq!(histogram(&digest(&[]), &[f64::NAN, 2.0]), vec![0.0]);
    assert_eq!(histogram(&d, &[f64::NAN]), Vec::<f64>::new());
}

#[test]
fn outer_bins_take_what_lies_outside() {
    let d = digest(&[(-7.0, 2), (1.0, 3), (2.0, 5), (3.0, 7), (9.0, 11)]);
    assert_eq!(histogram(&d, &[1.0, 2.0, 3.0]), vec![5.0, 23.0]);
    assert_eq!(histogram(&d, &[0.0, 5.0]), vec![28.0]);
}

#[test]
fn means_are_weighted_by_their_power() {
    let d = digest(&[(1.0, 2), (2.0, 3), (3.0, 1)]);
    assert_eq!(weighted(&d, &[0.0, 1.5, 4.0], 2.0), vec![2.0, 21.0]);
    let powers = numbers(&[1.0, 4.0, 9.0]);
    let r = _tdigest_to_histogram_inner(&d, &numbers(&[0.0, 1.5, 4.0]), number(2.0), &powers);
    assert_eq!(r.into_iter().map(float).collect::<Vec<f64>>(), vec![2.0, 21.0]);
}

#[test]
fn large_counts_add_up_exactly() {
    let d = digest(&[(1.0, 1 << 52), (2.0, (1 << 52) - 1), (3.0, 1)]);
    let hist = histogram(&d, &[0.0, 1.5, 2.5, 4.0]);
    assert_eq!(hist, vec![(1u64 << 52) as f64, ((1u64 << 52) - 1) as f64, 1.0]);
    assert_eq!(hist.iter().sum::<f64>(), (1u64 << 53) as f64);
}

#[test]
fn places_among_edges() {
    let edges = numbers(&[0.0, 1.0, 2.0, 3.0]);
    assert_eq!(locate(&edges, number(-1.0)), Place::Before(0));
    assert_eq!(locate(&edges, number(-0.0)), Place::At(0));
    assert_eq!(locate(&edges, number(0.5)), Place::Before(1));
    assert_eq!(locate(&edges, number(3.0)), Place::At(3));
    assert_eq!(locate(&edges, number(f64::INFINITY)), Place::Before(4));
    assert_eq!(bin_of(Place::Before(0), 3), 0);
    assert_eq!(bin_of(Place::At(0), 3), 0);
    assert_eq!(bin_of(Place::Before(1), 3), 0);
    assert_eq!(bin_of(Place::At(2), 3), 2);
    assert_eq!(bin_of(Place::Before(3), 3), 2);
    assert_eq!(bin_of(Place::At(3), 3), 2);
    assert_eq!(bin_of(Place::Before(4), 3), 2);
}

#[test]
fn there_is_a_bin_between_edges_and_none_is_negative() {
    let d = digest(&[(0.5, 2), (1.5, 3), (2.5, 1)]);
    for n in 1..6 {
        let edges: Vec<f64> = (0..n).map(|i| i as f64).collect();
        let hist = weighted(&d, &edges, 2.0);
        assert_eq!(hist.len(), n - 1);
        assert!(hist.iter().all(|h| *h >= 0.0));
    }
}

#[test]
fn weight_power_zero_changes_nothing_whatever_the_edges() {
    let d = digest(&[(0.0, 2), (1.0, 3), (1.5, 7), (2.0, 5), (4.0, 1)]);
    for edges in [
        vec![0.0, 1.0, 1.0, 1.0, 2.0],
        vec![1.0, 1.0],
        vec![2.0, 0.0, 1.0, 3.0],
        vec![0.0, 1.0, 2.0, 3.0],
    ] {
        let plain = histogram(&d, &edges);
        assert_eq!(weighted(&d, &edges, 0.0), plain);
        assert_eq!(weighted(&d, &edges, -0.0), plain);
        assert_eq!(plain.iter().sum::<f64>(), 18.0);
    }
}

#[test]
fn repeated_edges_are_found_by_bisection() {
    let edges = numbers(&[0.0, 1.0, 1.0, 1.0, 2.0]);
    assert_eq!(locate(&edges, number(1.0)), Place::At(2));
    assert_eq!(locate(&edges, number(1.5)), Place::Before(4));
    assert_eq!(locate(&numbers(&[]), number(1.5)), Place::Before(0));
}

#[test]
fn histograms_weighted_when_written_are_histograms_weighted_when_queried() {
    let values: Vec<(f64, u64)> = (1..=40).map(|i| (i as f64, 1)).collect();
    let cubed: Vec<(f64, u64)> = (1..=40u64).map(|i| (i as f64, i * i * i)).collect();
    let edges = [0.0, 7.0, 7.5, 30.0, 31.0];
    assert_eq!(histogram(&digest(&cubed), &edges), weighted(&digest(&values), &edges, 3.0));
}
