use tdigest_stats::binary64::Binary64;
use tdigest_stats::digest::{Centroid, InternalTDigest};
use tdigest_stats::wire::{
    tdigest_compound_deserialize, tdigest_compound_serialize, tdigest_deserialize_inner,
    tdigest_serialize, WireError,
};

fn number(x: f64) -> Binary64 {
    Binary64::from_bits(x.to_bits())
}

fn sample() -> InternalTDigest {
    let mut sum = 0.0;
    for v in [14.0, 18.0, 22.7, 39.42, -43.0] {
        sum += v;
    }
    let centroids = [-43.0, 14.0, 18.0, 22.7, 39.42]
        .iter()
        .map(|m| Centroid::new(number(*m), 1))
        .collect();
    InternalTDigest::new(centroids, number(sum), 5, number(39.42), number(-43.0), 100)
}

const EXPECTED: [u8; 130] = [
    1, 1, 5, 0, 0, 0, 0, 0, 0, 0, 0, 0, 0, 0, 0, 128, 69, 192, 1, 0, 0, 0, 0, 0, 0, 0, 0, 0, 0, 0,
    0, 0, 44, 64, 1, 0, 0, 0, 0, 0, 0, 0, 0, 0, 0, 0, 0, 0, 50, 64, 1, 0, 0, 0, 0, 0, 0, 0, 51, 51,
    51, 51, 51, 179, 54, 64, 1, 0, 0, 0, 0, 0, 0, 0, 246, 40, 92, 143, 194, 181, 67, 64, 1, 0, 0,
    0, 0, 0, 0, 0, 100, 0, 0, 0, 0, 0, 0, 0, 144, 194, 245, 40, 92, 143, 73, 64, 5, 0, 0, 0, 0, 0,
    0, 0, 246, 40, 92, 143, 194, 181, 67, 64, 0, 0, 0, 0, 0, 128, 69, 192,
];

fn same(a: &InternalTDigest, b: &InternalTDigest) {
    assert_eq!(a.centroids, b.centroids);
    assert_eq!((a.sum, a.count, a.max, a.min, a.max_size), (b.sum, b.count, b.max, b.min, b.max_size));
}

#[test]
fn test_tdigest_byte_io() {
    let control = sample();
    assert_eq!(tdigest_serialize(&control), EXPECTED.to_vec());
    assert_eq!(tdigest_compound_serialize(&control), EXPECTED.to_vec());
    same(&tdigest_deserialize_inner(&EXPECTED.to_vec()).unwrap(), &control);
    same(&tdigest_compound_deserialize(&EXPECTED.to_vec()).unwrap(), &control);
}

#[test]
fn bytes_after_the_digest_are_not_looked_at() {
    let mut bytes = EXPECTED.to_vec();
    bytes.extend([9, 9, 9]);
    same(&tdigest_deserialize_inner(&bytes).unwrap(), &sample());
}

#[test]
fn every_cut_is_refused() {
    for len in 0..EXPECTED.len() {
        let bytes = EXPECTED[..len].to_vec();
        assert_eq!(tdigest_deserialize_inner(&bytes).err(), Some(WireError::Truncated));
    }
}

#[test]
fn a_huge_length_is_refused() {
    let mut bytes = EXPECTED.to_vec();
    for b in &mut bytes[2..10] {
        *b = 255;
    }
    assert_eq!(tdigest_deserialize_inner(&bytes).err(), Some(WireError::Truncated));
}

#[test]
fn other_versions_and_encodings_are_refused() {
    let mut bytes = EXPECTED.to_vec();
    bytes[0] = 2;
    assert_eq!(tdigest_deserialize_inner(&bytes).err(), Some(WireError::Version));
    let mut bytes = EXPECTED.to_vec();
    bytes[1] = 0;
    assert_eq!(tdigest_compound_deserialize(&bytes).err(), Some(WireError::Encoding));
    assert_eq!(tdigest_deserialize_inner(&vec![7]).err(), Some(WireError::Version));
}

#[test]
fn sizes_that_fit_are_read() {
    let mut bytes = EXPECTED.to_vec();
    for b in &mut bytes[90..98] {
        *b = 255;
    }
    match tdigest_deserialize_inner(&bytes) {
        Ok(d) => assert_eq!(d.max_size as u64, u64::MAX),
        Err(e) => assert_eq!((e, usize::BITS), (WireError::Size, 32)),
    }
}

#[test]
fn an_empty_digest_survives() {
    let d = InternalTDigest::new(Vec::new(), number(-0.0), 0, number(f64::NAN), number(f64::MAX), 7);
    same(&tdigest_deserialize_inner(&tdigest_serialize(&d)).unwrap(), &d);
    assert_eq!(tdigest_serialize(&d).len(), 50);
}
