use tdigest_stats::binary64::Binary64;
use tdigest_stats::digest::{Centroid, TDigest};
use tdigest_stats::summary::{
    arrow_tdigest_max, arrow_tdigest_mean, arrow_tdigest_min, arrow_tdigest_num_vals, tdigest_count,
    tdigest_max, tdigest_mean, tdigest_min, tdigest_sum, AccessorMaxVal, AccessorMean,
    AccessorMinVal, AccessorNumVals,
};

fn number(x: f64) -> Binary64 {
    Binary64::from_bits(x.to_bits())
}

fn float(x: Binary64) -> f64 {
    f64::from_bits(x.to_bits())
}

fn apx_eql(value: f64, expected: f64, error: f64) {
    assert!(
        (value - expected).abs() < error,
        "Float value {value} differs from expected {expected} by more than {error}"
    );
}

fn digest(values: &[f64]) -> TDigest {
    TDigest {
        buckets: values.len() as u32,
        max_buckets: 100,
        count: values.len() as u64,
        sum: number(values.iter().sum()),
        min: number(values.first().map_or(0.0, |v| *v)),
        max: number(values.last().map_or(0.0, |v| *v)),
        centroids: values.iter().map(|v| Centroid::new(number(*v), 1)).collect(),
    }
}

#[test]
fn test_tdigest_aggregate() {
    let values: Vec<f64> = (1..=10000).map(|i| i as f64 / 100.0).collect();
    let d = digest(&values);
    apx_eql(float(tdigest_min(&d)), 0.01, 0.000001);
    apx_eql(float(tdigest_max(&d)), 100.0, 0.000001);
    apx_eql(float(tdigest_count(&d)), 10000.0, 0.000001);
    assert_eq!(arrow_tdigest_min(&d, AccessorMinVal {}), tdigest_min(&d));
    assert_eq!(arrow_tdigest_max(&d, AccessorMaxVal {}), tdigest_max(&d));
    assert_eq!(arrow_tdigest_num_vals(&d, AccessorNumVals {}), tdigest_count(&d));
    apx_eql(float(tdigest_mean(&d)), 50.005, 0.0001);
    assert_eq!(arrow_tdigest_mean(&d, AccessorMean {}), tdigest_mean(&d));
}

#[test]
fn mean_of_nothing_is_zero() {
    let mut d = digest(&[]);
    d.sum = number(5.0);
    assert_eq!(float(tdigest_mean(&d)), 0.0);
    assert_eq!(float(tdigest_count(&d)), 0.0);
}

#[test]
fn mean_is_the_sum_over_the_count() {
    let d = digest(&[1.0, 2.0, 4.0]);
    assert_eq!(float(tdigest_sum(&d)), 7.0);
    assert_eq!(float(tdigest_mean(&d)), 7.0 / 3.0);
}

#[test]
fn large_counts_are_rounded() {
    let mut d = digest(&[1.0]);
    d.count = u64::MAX;
    assert_eq!(float(tdigest_count(&d)), u64::MAX as f64);
    d.count = (1 << 53) + 1;
    assert_eq!(float(tdigest_count(&d)), ((1u64 << 53) + 1) as f64);
}
