use tdigest_stats::binary64::Binary64;

/// A stream of bit patterns that covers zeros, subnormals, infinities and ordinary numbers.
fn patterns(count: usize) -> Vec<u64> {
    let mut out: Vec<u64> = vec![
        0,
        1,
        2,
        0x000F_FFFF_FFFF_FFFF,
        0x0010_0000_0000_0000,
        0x0010_0000_0000_0001,
        0x3FF0_0000_0000_0000,
        0x3FF0_0000_0000_0001,
        0x3FEF_FFFF_FFFF_FFFF,
        0x7FEF_FFFF_FFFF_FFFF,
        0x7FF0_0000_0000_0000,
        0x7FF8_0000_0000_0000,
        0x8000_0000_0000_0000,
        0x8000_0000_0000_0001,
        0xBFF0_0000_0000_0000,
        0xFFEF_FFFF_FFFF_FFFF,
        0xFFF0_0000_0000_0000,
    ];
    let mut state: u64 = 0x9E37_79B9_7F4A_7C15;
    while out.len() < count {
        state ^= state << 13;
        state ^= state >> 7;
        state ^= state << 17;
        let wide = state;
        // Half of the numbers keep close exponents, so that sums and differences overlap.
        if out.len() % 2 == 0 {
            out.push(wide);
        } else {
            let exponent = 1000 + (wide >> 52) % 60;
            out.push((wide & 0x800F_FFFF_FFFF_FFFF) | (exponent << 52));
        }
    }
    out
}

fn agrees(got: Binary64, want: f64) -> bool {
    if want.is_nan() {
        got.is_nan()
    } else {
        got.to_bits() == want.to_bits()
    }
}

fn against_hardware(ours: fn(Binary64, Binary64) -> Binary64, native: fn(f64, f64) -> f64) {
    let all = patterns(500);
    for &a in &all {
        for &b in &all {
            let got = ours(Binary64::from_bits(a), Binary64::from_bits(b));
            let want = native(f64::from_bits(a), f64::from_bits(b));
            assert!(agrees(got, want), "{a:#x} {b:#x}: {:#x} {:#x}", got.to_bits(), want.to_bits());
        }
    }
}

#[test]
fn sums_are_those_of_the_hardware() {
    against_hardware(|a, b| a.plus(b), |a, b| a + b);
}

#[test]
fn differences_are_those_of_the_hardware() {
    against_hardware(|a, b| a.minus(b), |a, b| a - b);
}

#[test]
fn products_are_those_of_the_hardware() {
    against_hardware(|a, b| a.times(b), |a, b| a * b);
}

#[test]
fn quotients_are_those_of_the_hardware() {
    against_hardware(|a, b| a.over(b), |a, b| a / b);
}

#[test]
fn roots_are_those_of_the_hardware() {
    for a in patterns(20000) {
        let got = Binary64::from_bits(a).sqrt();
        assert!(agrees(got, f64::from_bits(a).sqrt()), "{a:#x}");
    }
}

#[test]
fn comparisons_are_those_of_the_hardware() {
    let all = patterns(500);
    for &a in &all {
        for &b in &all {
            let (x, y) = (Binary64::from_bits(a), Binary64::from_bits(b));
            let (p, q) = (f64::from_bits(a), f64::from_bits(b));
            assert_eq!(x.at_most(y), p <= q);
            assert_eq!(x.less(y), p < q);
            assert_eq!(x.equals(y), p == q);
        }
    }
}

#[test]
fn integers_convert_as_the_hardware_does() {
    for bits in patterns(20000) {
        assert_eq!(Binary64::from_count(bits).to_bits(), (bits as f64).to_bits());
        assert_eq!(Binary64::from_count(bits >> 40).to_bits(), ((bits >> 40) as f64).to_bits());
        let x = f64::from_bits(bits);
        assert_eq!(Binary64::from_bits(bits).to_count(), x.round() as u64, "{x}");
    }
    for (x, n) in [(0.49, 0), (0.5, 1), (0.9, 1), (1.5, 2), (2.5, 3), (-3.0, 0), (1e300, u64::MAX)] {
        assert_eq!(Binary64::from_bits(f64::to_bits(x)).to_count(), n);
    }
}

#[test]
fn negation_turns_the_sign_over() {
    for a in patterns(2000) {
        assert_eq!(Binary64::from_bits(a).negated().to_bits(), a ^ (1 << 63));
    }
}

#[test]
fn results_keep_the_order_of_their_terms() {
    let xs: Vec<f64> = patterns(60).into_iter().map(f64::from_bits).collect();
    let number = |x: f64| Binary64::from_bits(x.to_bits());
    for &a in &xs {
        for &b in &xs {
            if !(a <= b) {
                continue;
            }
            for &c in &xs {
                let (p, q) = (number(a).plus(number(c)), number(b).plus(number(c)));
                assert!(p.is_nan() || q.is_nan() || p.at_most(q));
                if c > 0.0 {
                    let (p, q) = (number(a).times(number(c)), number(b).times(number(c)));
                    assert!(p.is_nan() || q.is_nan() || p.at_most(q));
                    let (p, q) = (number(a).over(number(c)), number(b).over(number(c)));
                    assert!(p.is_nan() || q.is_nan() || p.at_most(q));
                }
            }
        }
    }
}

#[test]
fn integers_add_exactly() {
    for (m, n) in [(0, 0), (1, 2), (1 << 52, 1 << 52), ((1 << 53) - 1, 1), (12345, 67890)] {
        let sum = Binary64::from_count(m).plus(Binary64::from_count(n));
        assert_eq!(sum, Binary64::from_count(m + n));
        assert_eq!(sum.to_count(), m + n);
    }
}

#[test]
fn quotients_and_roots_err_by_half_a_spacing() {
    let integer = |x: Binary64| ((x.to_bits() & ((1 << 52) - 1)) | (1 << 52)) as i128;
    for d in 3..200u64 {
        // The quotient lies between 1 and 2, so its spacing is two to the power of minus 52.
        let n = 2 * d - 1;
        let q = integer(Binary64::from_count(n).over(Binary64::from_count(d)));
        assert!(2 * (q * d as i128 - ((n as i128) << 52)).abs() <= d as i128);
    }
    for n in 1..4u64 {
        let r = integer(Binary64::from_count(n).sqrt());
        let square = (n as i128) << 106;
        assert!((2 * r - 1) * (2 * r - 1) <= square && square <= (2 * r + 1) * (2 * r + 1));
    }
}

#[test]
fn powers_of_two_scale_results() {
    let number = |x: f64| Binary64::from_bits(x.to_bits());
    let scale = number((1u64 << 20) as f64);
    for (a, b) in [(0.1, 0.2), (1.0 / 3.0, 7.7), (123.456, 0.0078)] {
        let (a, b) = (number(a), number(b));
        let (c, d) = (a.times(scale), b.times(scale));
        assert_eq!(c.plus(d), a.plus(b).times(scale));
        assert_eq!(c.times(b), a.times(b).times(scale));
        assert_eq!(c.over(d), a.over(b));
    }
}

#[test]
fn roundings_of_a_count_and_its_multiple_are_near() {
    for c in [1u64, 3, (1 << 53) + 1, 0xFFFF_FFFF_FFFF] {
        for k in [1u64, 3, 1000] {
            let x = Binary64::from_count(c).times(Binary64::from_count(k));
            let y = Binary64::from_count(c * k);
            assert!(x.to_bits().abs_diff(y.to_bits()) <= 2);
        }
    }
}

#[test]
fn integers_multiply_exactly() {
    for (m, n) in [(0, 1 << 53), (1, 2), (1 << 26, 1 << 27), (12345, 67890), (3, (1 << 51) + 1)] {
        let product = Binary64::from_count(m).times(Binary64::from_count(n));
        assert_eq!(product, Binary64::from_count(m * n));
        assert_eq!(product.to_count(), m * n);
    }
}
