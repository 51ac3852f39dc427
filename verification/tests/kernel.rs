use tdigest_stats::binary64::Binary64;
use tdigest_stats::density::tdigest_to_pdf;
use tdigest_stats::digest::{Centroid, InternalTDigest, TDigest};
use tdigest_stats::kernel::{
    effective_count, gaussian_pdf, kernel_exponent, kernel_percentage, tdigest_to_pdf_kde,
    tdigest_to_pdf_kde_bandwidth, tdigest_to_pdf_kde_weighted, thumb_bandwidth, weighted_mean,
    weighted_variance,
};

fn number(x: f64) -> Binary64 {
    Binary64::from_bits(x.to_bits())
}

fn float(x: Binary64) -> f64 {
    f64::from_bits(x.to_bits())
}

fn powf(x: Binary64, p: Binary64) -> Binary64 {
    number(float(x).powf(float(p)))
}

fn exp(x: Binary64) -> Binary64 {
    number(float(x).exp())
}

fn apx_eql(value: f64, expected: f64, error: f64) {
    assert!(
        (value - expected).abs() < error,
        "Float value {value} differs from expected {expected} by more than {error}"
    );
}

fn digest(pairs: &[(f64, u64)]) -> TDigest {
    TDigest {
        buckets: pairs.len() as u32,
        max_buckets: 100,
        count: pairs.iter().map(|p| p.1).sum(),
        sum: number(pairs.iter().map(|p| p.0 * p.1 as f64).sum()),
        min: number(pairs.first().map_or(0.0, |p| p.0)),
        max: number(pairs.last().map_or(0.0, |p| p.0)),
        centroids: pairs.iter().map(|p| Centroid::new(number(p.0), p.1)).collect(),
    }
}

/// The share of values up to a value, each centroid taken as a whole.
fn estimate(d: &InternalTDigest, value: Binary64) -> Binary64 {
    let up_to: u64 = d
        .centroids
        .iter()
        .filter(|c| float(c.mean) <= float(value))
        .map(|c| c.weight)
        .sum();
    number(up_to as f64 / d.count as f64)
}

fn kde(d: &TDigest, n: i32, low: f64, high: f64) -> Vec<f64> {
    tdigest_to_pdf_kde(d, n, number(low), number(high), powf, exp).into_iter().map(float).collect()
}

fn kde_bandwidth(d: &TDigest, n: i32, low: f64, high: f64, bandwidth: f64) -> Vec<f64> {
    tdigest_to_pdf_kde_bandwidth(d, n, number(low), number(high), number(bandwidth), powf, exp)
        .into_iter()
        .map(float)
        .collect()
}

fn kde_weighted(
    d: &TDigest,
    n: i32,
    low: f64,
    high: f64,
    bandwidth: f64,
    power: f64,
) -> Vec<f64> {
    tdigest_to_pdf_kde_weighted(
        d,
        n,
        number(low),
        number(high),
        number(bandwidth),
        number(power),
        powf,
        exp,
    )
    .into_iter()
    .map(float)
    .collect()
}

fn peak(xs: &[f64]) -> f64 {
    xs.iter().cloned().fold(0.0, f64::max)
}

/// The same estimate with native numbers.
fn native(
    pairs: &[(f64, u64)],
    n: usize,
    low: f64,
    high: f64,
    bandwidth: f64,
    power: f64,
) -> Vec<f64> {
    let dx = (high - low) / n as f64;
    let weighted: Vec<(f64, f64)> = pairs
        .iter()
        .map(|p| (p.0, if power == 0.0 { p.1 as f64 } else { p.1 as f64 * p.0.powf(power) }))
        .collect();
    let total: f64 = weighted.iter().map(|p| p.1).sum();
    let bw = if bandwidth <= 0.0 {
        let mean = weighted.iter().map(|p| p.0 * p.1).sum::<f64>() / total;
        let variance =
            weighted.iter().map(|p| p.1 * ((p.0 - mean) * (p.0 - mean))).sum::<f64>() / total;
        let squares: f64 = weighted.iter().map(|p| p.1 * p.1).sum();
        let rule = 1.06 * variance.sqrt() * (total * total / squares).powf(-0.2);
        if rule <= 0.0 || !rule.is_finite() {
            dx / 2.0
        } else {
            rule
        }
    } else {
        bandwidth
    };
    (0..n)
        .map(|i| {
            let x = low + (i as f64 + 0.5) * dx;
            let mut sum = 0.0;
            for (m, w) in &weighted {
                let u = (x - m) / bw;
                sum += w * ((-u * u / 2.0).exp() / (2.0 * std::f64::consts::PI).sqrt());
            }
            sum / (total * bw) * dx * 100.0
        })
        .collect()
}

#[test]
fn test_tdigest_kde_single_centroid() {
    let r = kde(&digest(&[(199.0, 1)]), 200, 0.0, 400.0);
    assert_eq!(r.len(), 200);
    apx_eql(r.iter().sum(), 100.0, 3.0);
    let max_bin = peak(&r);
    let max_idx = r.iter().position(|&v| v == max_bin).unwrap_or(0);
    assert!(
        (max_idx as f64 - 99.0).abs() < 5.0,
        "KDE max should be at bin ~99 (mean=199), got bin {max_idx}"
    );
    let nonzero = r.iter().filter(|&&v| v > 0.0).count();
    assert!(nonzero > 20, "KDE should spread beyond a single bin, got {nonzero} nonzero");
}

#[test]
fn test_tdigest_kde_sum_equals_100() {
    let pairs: Vec<(f64, u64)> = (1..=399).map(|i| (i as f64, 1)).collect();
    let r = kde(&digest(&pairs), 200, -200.0, 600.0);
    apx_eql(r.iter().sum(), 100.0, 0.5);
}

#[test]
fn test_tdigest_kde_smoothness() {
    let mut state: u64 = 1;
    let mut values: Vec<f64> = Vec::new();
    for _ in 0..200 {
        state = state.wrapping_mul(6364136223846793005).wrapping_add(1442695040888963407);
        values.push((state >> 11) as f64 / (1u64 << 53) as f64 * 100.0);
    }
    values.sort_by(|a, b| a.partial_cmp(b).unwrap());
    let pairs: Vec<(f64, u64)> = values.iter().map(|v| (*v, 50)).collect();
    let d = digest(&pairs);
    let r = kde(&d, 200, 0.0, 400.0);
    let pdf = tdigest_to_pdf(&d, 200, number(0.0), number(400.0), estimate);
    let kde_zero = r.iter().filter(|&&v| v == 0.0).count();
    let pdf_zero = pdf.iter().filter(|v| float(**v) == 0.0).count();
    assert!(
        kde_zero <= pdf_zero,
        "KDE should have at most as many zero bins as PDF, got {kde_zero} vs {pdf_zero}"
    );
}

#[test]
fn test_tdigest_kde_bandwidth_param() {
    let d = digest(&[(199.0, 1)]);
    let bw_auto = kde(&d, 200, 0.0, 400.0);
    let bw_large = kde_bandwidth(&d, 200, 0.0, 400.0, 100.0);
    let bw_small = kde_bandwidth(&d, 200, 0.0, 400.0, 0.6);
    assert_eq!(bw_auto.len(), 200);
    assert_eq!(bw_large.len(), 200);
    assert_eq!(bw_small.len(), 200);
    apx_eql(bw_auto.iter().sum(), 100.0, 3.0);
    assert!(peak(&bw_small) > peak(&bw_auto));
    assert!(peak(&bw_auto) > peak(&bw_large));
}

#[test]
fn estimates_agree_with_native_arithmetic_bit_for_bit() {
    let pairs = [(1.0, 3), (2.5, 4), (7.25, 1), (11.0, 9)];
    let d = digest(&pairs);
    assert_eq!(kde(&d, 40, -3.0, 17.0), native(&pairs, 40, -3.0, 17.0, 0.0, 0.0));
    assert_eq!(
        kde_bandwidth(&d, 40, -3.0, 17.0, 0.7),
        native(&pairs, 40, -3.0, 17.0, 0.7, 0.0)
    );
    assert_eq!(
        kde_weighted(&d, 40, -3.0, 17.0, 0.0, 1.5),
        native(&pairs, 40, -3.0, 17.0, 0.0, 1.5)
    );
    assert_eq!(kde_weighted(&d, 40, -3.0, 17.0, 0.0, 0.0), kde(&d, 40, -3.0, 17.0));
}

#[test]
fn nothing_makes_no_bins_or_zero_bins() {
    let d = digest(&[(1.0, 1)]);
    assert_eq!(kde(&d, 0, 0.0, 1.0), Vec::<f64>::new());
    assert_eq!(kde(&d, -1, 0.0, 1.0), Vec::<f64>::new());
    assert_eq!(kde(&digest(&[]), 3, 0.0, 1.0), vec![0.0, 0.0, 0.0]);
    assert_eq!(kde_weighted(&digest(&[(0.0, 1)]), 2, 0.0, 1.0, 0.0, 2.0), vec![0.0, 0.0]);
}

#[test]
fn formulas() {
    let d = digest(&[(1.0, 1), (3.0, 3)]);
    let weights = vec![number(1.0), number(3.0)];
    assert_eq!(float(weighted_mean(&d.centroids, &weights)), 2.5);
    assert_eq!(float(weighted_variance(&d.centroids, &weights, number(2.5))), 0.75);
    assert_eq!(float(effective_count(&weights)), 1.6);
    let power = number(1.6f64.powf(-0.2));
    assert_eq!(
        float(thumb_bandwidth(&d.centroids, &weights, number(1.0), power)),
        1.06 * 0.75f64.sqrt() * 1.6f64.powf(-0.2)
    );
    let one = digest(&[(1.0, 1)]);
    let unit = vec![number(1.0)];
    assert_eq!(float(thumb_bandwidth(&one.centroids, &unit, number(3.0), number(1.0))), 1.5);
    assert_eq!(float(kernel_exponent(number(5.0), number(1.0), number(2.0))), -2.0);
    let curve = 1.0 / (2.0 * std::f64::consts::PI).sqrt();
    assert_eq!(float(gaussian_pdf(number(1.0))), curve);
    let r = kernel_percentage(&unit, &vec![number(1.0)], number(2.0), number(0.5));
    assert_eq!(float(r), curve / 2.0 * 0.5 * 100.0);
}

#[test]
fn bins_are_not_negative() {
    for v in kde(&digest(&[(1.0, 3), (2.5, 4), (7.25, 1)]), 50, -20.0, 20.0) {
        assert!(v >= 0.0, "{v}");
    }
}

#[test]
fn a_power_of_two_in_all_weights_changes_nothing() {
    let pairs = [(1.0, 3), (2.5, 4), (7.25, 1), (11.0, 9)];
    let heavier: Vec<(f64, u64)> = pairs.iter().map(|p| (p.0, p.1 << 20)).collect();
    let (d, e) = (digest(&pairs), digest(&heavier));
    assert_eq!(kde(&d, 40, -3.0, 17.0), kde(&e, 40, -3.0, 17.0));
    assert_eq!(
        kde_bandwidth(&d, 40, -3.0, 17.0, 0.7),
        kde_bandwidth(&e, 40, -3.0, 17.0, 0.7)
    );
    assert_eq!(
        kde_weighted(&d, 40, -3.0, 17.0, 0.0, 1.5),
        kde_weighted(&e, 40, -3.0, 17.0, 0.0, 1.5)
    );
}

#[test]
fn a_common_factor_of_all_weights_changes_rounding_alone() {
    let pairs = [(1.0, 3), (2.5, 4), (7.25, 1), (11.0, 9)];
    for k in [3, 10, 12345] {
        let heavier: Vec<(f64, u64)> = pairs.iter().map(|p| (p.0, p.1 * k)).collect();
        let (d, e) = (digest(&pairs), digest(&heavier));
        let given = kde_bandwidth(&d, 40, -3.0, 17.0, 0.7);
        for (a, b) in given.iter().zip(kde_bandwidth(&e, 40, -3.0, 17.0, 0.7)) {
            assert!((a - b).abs() <= 1e-14 * a, "{a} and {b} with factor {k}");
        }
        let automatic = kde(&d, 40, -3.0, 17.0);
        for (a, b) in automatic.iter().zip(kde(&e, 40, -3.0, 17.0)) {
            assert!((a - b).abs() <= 1e-13 * a, "{a} and {b} with factor {k}");
        }
    }
}

#[test]
fn moments_take_no_notice_of_a_common_factor() {
    let pairs = [(1.0, 3), (2.5, 4), (7.25, 1), (11.0, 9)];
    let d = digest(&pairs);
    let light: Vec<Binary64> = pairs.iter().map(|p| number(p.1 as f64)).collect();
    let heavy: Vec<Binary64> = pairs.iter().map(|p| number(7.0 * p.1 as f64)).collect();
    apx_eql(float(effective_count(&heavy)), float(effective_count(&light)), 1e-14);
    let (c, e) = (weighted_mean(&d.centroids, &light), weighted_mean(&d.centroids, &heavy));
    apx_eql(float(e), float(c), 1e-14);
    apx_eql(
        float(weighted_variance(&d.centroids, &heavy, e)),
        float(weighted_variance(&d.centroids, &light, c)),
        1e-13,
    );
    let power = number(0.8);
    apx_eql(
        float(thumb_bandwidth(&d.centroids, &heavy, number(1.0), power)),
        float(thumb_bandwidth(&d.centroids, &light, number(1.0), power)),
        1e-14,
    );
}

#[test]
fn a_rounded_mean_can_stand_in_for_a_spread() {
    // Three tenths over three is not a tenth.
    let d = digest(&[(0.1, 1)]);
    let one = vec![number(1.0)];
    let three = vec![number(3.0)];
    assert_eq!(float(thumb_bandwidth(&d.centroids, &one, number(3.0), number(1.0))), 1.5);
    let tiny = float(thumb_bandwidth(&d.centroids, &three, number(3.0), number(1.0)));
    assert!(0.0 < tiny && tiny < 1e-16, "{tiny}");
}

#[test]
fn a_rounding_of_the_bandwidth_is_a_rounding_of_the_exponent() {
    for x in [-3.0, 0.25, 12.5] {
        for bandwidth in [0.7, 3.0, 11.0] {
            let next = number(f64::from_bits(f64::to_bits(bandwidth) + 1));
            let a = float(kernel_exponent(number(x), number(1.0), number(bandwidth)));
            let b = float(kernel_exponent(number(x), number(1.0), next));
            assert!((a - b).abs() <= 10.0 * a.abs() * f64::EPSILON, "{a} and {b}");
        }
    }
}
