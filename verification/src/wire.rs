//! The byte format in which digests travel between workers.
//!
//! Two marker bytes, the number of centroids, mean and weight of each centroid, the size, the
//! sum, the count, the largest and the smallest value. Every number takes eight bytes, the low
//! byte first.

use vstd::prelude::*;

use crate::binary64::number::of;
use crate::binary64::Binary64;
use crate::digest::{Centroid, InternalTDigest, InternalTDigestView};

verus! {

/// The first byte: the version of the format.
pub const VERSION: u8 = 1;

/// The second byte: the kind of encoding.
pub const ENCODING: u8 = 1;

/// Why bytes are not a digest.
#[derive(Clone, Copy, Debug, PartialEq, Eq, Structural)]
pub enum WireError {
    /// The bytes end too early.
    Truncated,
    /// The first byte is not the version.
    Version,
    /// The second byte is not the encoding.
    Encoding,
    /// The size does not fit the machine.
    Size,
}

/// The low `count` bytes of `n`, the low byte first.
pub open spec fn bytes_of(n: int, count: int) -> Seq<u8>
    decreases count,
{
    if count <= 0 {
        Seq::empty()
    } else {
        seq![(n % 256) as u8] + bytes_of(n / 256, count - 1)
    }
}

/// The number that bytes make up, the low byte first.
pub open spec fn number_of(bytes: Seq<u8>) -> int
    decreases bytes.len(),
{
    if bytes.len() == 0 {
        0
    } else {
        bytes[0] + 256 * number_of(bytes.skip(1))
    }
}

/// The eight bytes of a number.
pub open spec fn word(n: u64) -> Seq<u8> {
    bytes_of(n as int, 8)
}

/// The number that starts at `at`.
pub open spec fn word_at(bytes: Seq<u8>, at: int) -> u64 {
    number_of(bytes.subrange(at, at + 8)) as u64
}

/// The bytes of a list of centroids.
pub open spec fn centroid_bytes(cs: Seq<Centroid>) -> Seq<u8>
    decreases cs.len(),
{
    if cs.len() == 0 {
        Seq::empty()
    } else {
        centroid_bytes(cs.drop_last()) + word(cs.last().mean.bits) + word(cs.last().weight)
    }
}

/// The bytes of a digest.
pub open spec fn encoded(d: InternalTDigestView) -> Seq<u8> {
    seq![VERSION, ENCODING] + word(d.centroids.len() as u64) + centroid_bytes(d.centroids) + word(
        d.max_size as u64,
    ) + word(d.sum.bits) + word(d.count) + word(d.max.bits) + word(d.min.bits)
}

/// The centroid that starts at `at`.
pub open spec fn centroid_at(bytes: Seq<u8>, at: int) -> Centroid {
    Centroid { mean: of(word_at(bytes, at)), weight: word_at(bytes, at + 8) }
}

/// The digest with `n` centroids that the bytes hold.
pub open spec fn digest_at(bytes: Seq<u8>, n: int) -> InternalTDigestView {
    let tail = 10 + 16 * n;
    InternalTDigestView {
        centroids: Seq::new(n as nat, |i: int| centroid_at(bytes, 10 + 16 * i)),
        max_size: word_at(bytes, tail) as usize,
        sum: of(word_at(bytes, tail + 8)),
        count: word_at(bytes, tail + 16),
        max: of(word_at(bytes, tail + 24)),
        min: of(word_at(bytes, tail + 32)),
    }
}

/// What the bytes are read as. Bytes after the digest are not looked at.
pub open spec fn decoded(bytes: Seq<u8>) -> Result<InternalTDigestView, WireError> {
    if bytes.len() >= 1 && bytes[0] != VERSION {
        Err(WireError::Version)
    } else if bytes.len() >= 2 && bytes[1] != ENCODING {
        Err(WireError::Encoding)
    } else if bytes.len() < 10 || bytes.len() < 50 + 16 * word_at(bytes, 2) {
        Err(WireError::Truncated)
    } else if word_at(bytes, 10 + 16 * word_at(bytes, 2)) > usize::MAX {
        Err(WireError::Size)
    } else {
        Ok(digest_at(bytes, word_at(bytes, 2) as int))
    }
}

/// What a reading gave.
pub open spec fn reading(r: Result<InternalTDigest, WireError>) -> Result<
    InternalTDigestView,
    WireError,
> {
    match r {
        Ok(d) => Ok(d@),
        Err(e) => Err(e),
    }
}

/// Appends the eight bytes of a number.
fn put(out: &mut Vec<u8>, n: u64)
    ensures
        final(out)@ == old(out)@ + word(n),
{
    let mut rest: u64 = n;
    let mut i: usize = 0;
    assert(out@ + bytes_of(rest as int, 8) =~= old(out)@ + word(n));
    while i < 8
        invariant
            i <= 8,
            out@ + bytes_of(rest as int, 8 - i) == old(out)@ + word(n),
        decreases 8 - i,
    {
        let ghost before = out@;
        let ghost whole = rest;
        let low: u8 = (rest % 256) as u8;
        out.push(low);
        rest = rest / 256;
        i = i + 1;
        assert(before + bytes_of(whole as int, 9 - i) =~= out@ + bytes_of(rest as int, 8 - i));
    }
    assert(out@ + bytes_of(rest as int, 0) =~= out@);
}

/// Reads the number that starts at `at`.
fn get(bytes: &Vec<u8>, at: usize) -> (r: u64)
    requires
        at + 8 <= bytes.len(),
    ensures
        r == word_at(bytes@, at as int),
        r == number_of(bytes@.subrange(at as int, at + 8)),
{
    let mut n: u128 = 0;
    let mut i: usize = 8;
    let ghost mut bound: int = 1;
    assert(bytes@.subrange(at + 8, at + 8) == Seq::<u8>::empty());
    while i > 0
        invariant
            i <= 8,
            at + 8 <= bytes.len(),
            n == number_of(bytes@.subrange(at + i, at + 8)),
            0 <= n < bound,
            bound == (if i == 8 {
                1int
            } else if i == 7 {
                0x100
            } else if i == 6 {
                0x1_0000
            } else if i == 5 {
                0x100_0000
            } else if i == 4 {
                0x1_0000_0000
            } else if i == 3 {
                0x100_0000_0000
            } else if i == 2 {
                0x1_0000_0000_0000
            } else if i == 1 {
                0x100_0000_0000_0000
            } else {
                0x1_0000_0000_0000_0000
            }),
        decreases i,
    {
        i = i - 1;
        n = bytes[at + i] as u128 + 256 * n;
        proof {
            bound = 256 * bound;
            let s = bytes@.subrange(at + i, at + 8);
            assert(s.skip(1) =~= bytes@.subrange(at + i + 1, at + 8));
        }
    }
    n as u64
}

/// The bytes of a digest.
fn encode(digest: &InternalTDigest) -> (r: Vec<u8>)
    ensures
        r@ == encoded(digest@),
{
    let mut out: Vec<u8> = Vec::new();
    out.push(VERSION);
    out.push(ENCODING);
    put(&mut out, digest.centroids.len() as u64);
    let ghost head = out@;
    assert(head == seq![VERSION, ENCODING] + word(digest.centroids@.len() as u64));
    let mut i: usize = 0;
    assert(digest.centroids@.take(0) == Seq::<Centroid>::empty());
    while i < digest.centroids.len()
        invariant
            i <= digest.centroids.len(),
            out@ == head + centroid_bytes(digest.centroids@.take(i as int)),
        decreases digest.centroids.len() - i,
    {
        let c: Centroid = digest.centroids[i];
        put(&mut out, c.mean.to_bits());
        put(&mut out, c.weight);
        i = i + 1;
        assert(digest.centroids@.take(i as int).drop_last() == digest.centroids@.take(i - 1));
        assert(out@ =~= head + centroid_bytes(digest.centroids@.take(i as int)));
    }
    assert(digest.centroids@.take(i as int) == digest.centroids@);
    put(&mut out, digest.max_size as u64);
    put(&mut out, digest.sum.to_bits());
    put(&mut out, digest.count);
    put(&mut out, digest.max.to_bits());
    put(&mut out, digest.min.to_bits());
    out
}

/// Reads a digest. Bytes after the digest are not looked at.
fn decode(bytes: &Vec<u8>) -> (r: Result<InternalTDigest, WireError>)
    ensures
        reading(r) == decoded(bytes@),
{
    let len: usize = bytes.len();
    if len >= 1 && bytes[0] != VERSION {
        return Err(WireError::Version);
    }
    if len >= 2 && bytes[1] != ENCODING {
        return Err(WireError::Encoding);
    }
    if len < 10 {
        return Err(WireError::Truncated);
    }
    let count: u64 = get(bytes, 2);
    if (len as u128) < 50 + 16 * count as u128 {
        return Err(WireError::Truncated);
    }
    let n: usize = count as usize;
    let tail: usize = 10 + 16 * n;
    let max_size: u64 = get(bytes, tail);
    if max_size > usize::MAX as u64 {
        return Err(WireError::Size);
    }
    let mut centroids: Vec<Centroid> = Vec::new();
    let mut i: usize = 0;
    while i < n
        invariant
            i <= n,
            10 + 16 * n + 40 <= bytes.len(),
            centroids@ == Seq::new(i as nat, |k: int| centroid_at(bytes@, 10 + 16 * k)),
        decreases n - i,
    {
        let at: usize = 10 + 16 * i;
        let mean: Binary64 = Binary64::from_bits(get(bytes, at));
        centroids.push(Centroid::new(mean, get(bytes, at + 8)));
        i = i + 1;
        assert(centroids@ =~= Seq::new(i as nat, |k: int| centroid_at(bytes@, 10 + 16 * k)));
    }
    let r: InternalTDigest = InternalTDigest::new(
        centroids,
        Binary64::from_bits(get(bytes, tail + 8)),
        get(bytes, tail + 16),
        Binary64::from_bits(get(bytes, tail + 24)),
        Binary64::from_bits(get(bytes, tail + 32)),
        max_size as usize,
    );
    assert(r@ =~= digest_at(bytes@, n as int));
    Ok(r)
}

/// The bytes of the digest that an aggregate has built so far.
pub fn tdigest_serialize(state: &InternalTDigest) -> (r: Vec<u8>)
    ensures
        r@ == encoded(state@),
{
    encode(state)
}

/// Reads the digest that another worker has built.
pub fn tdigest_deserialize_inner(bytes: &Vec<u8>) -> (r: Result<InternalTDigest, WireError>)
    ensures
        reading(r) == decoded(bytes@),
{
    decode(bytes)
}

/// The bytes of a rollup.
pub fn tdigest_compound_serialize(state: &InternalTDigest) -> (r: Vec<u8>)
    ensures
        r@ == encoded(state@),
{
    encode(state)
}

/// Reads a rollup.
pub fn tdigest_compound_deserialize(bytes: &Vec<u8>) -> (r: Result<InternalTDigest, WireError>)
    ensures
        reading(r) == decoded(bytes@),
{
    decode(bytes)
}

/// The number of values that `count` bytes can take.
pub open spec fn span(count: int) -> int
    decreases count,
{
    if count <= 0 {
        1
    } else {
        256 * span(count - 1)
    }
}

/// Bytes of a number that fits them make up the number.
proof fn lemma_number_of_bytes(n: int, count: int)
    requires
        0 <= n < span(count),
        count >= 0,
    ensures
        bytes_of(n, count).len() == count,
        number_of(bytes_of(n, count)) == n,
    decreases count,
{
    if count > 0 {
        lemma_number_of_bytes(n / 256, count - 1);
        assert(bytes_of(n, count).skip(1) =~= bytes_of(n / 256, count - 1));
    }
}

/// The number that bytes make up has those bytes.
proof fn lemma_bytes_of_number(bytes: Seq<u8>)
    ensures
        0 <= number_of(bytes) < span(bytes.len() as int),
        bytes_of(number_of(bytes), bytes.len() as int) == bytes,
    decreases bytes.len(),
{
    if bytes.len() > 0 {
        lemma_bytes_of_number(bytes.skip(1));
        let n = number_of(bytes);
        assert(n % 256 == bytes[0] && n / 256 == number_of(bytes.skip(1)));
        assert(bytes_of(n, bytes.len() as int) =~= bytes);
    } else {
        assert(bytes_of(0, 0) =~= bytes);
    }
}

/// A number survives the way through its eight bytes.
proof fn lemma_word(n: u64)
    ensures
        word(n).len() == 8,
        number_of(word(n)) == n,
{
    reveal_with_fuel(span, 9);
    lemma_number_of_bytes(n as int, 8);
}

/// Eight bytes survive the way through the number that they make up.
proof fn lemma_word_at(bytes: Seq<u8>, at: int)
    requires
        0 <= at,
        at + 8 <= bytes.len(),
    ensures
        word(word_at(bytes, at)) == bytes.subrange(at, at + 8),
{
    reveal_with_fuel(span, 9);
    lemma_bytes_of_number(bytes.subrange(at, at + 8));
}

/// Where the bytes of a number stand, the number is read.
proof fn lemma_reads_word(bytes: Seq<u8>, at: int, n: u64)
    requires
        0 <= at,
        at + 8 <= bytes.len(),
        bytes.subrange(at, at + 8) == word(n),
    ensures
        word_at(bytes, at) == n,
{
    lemma_word(n);
}

/// Where the bytes of each centroid stand in the list.
proof fn lemma_centroid_bytes(cs: Seq<Centroid>)
    ensures
        centroid_bytes(cs).len() == 16 * cs.len(),
        forall|i: int|
            0 <= i < cs.len() ==> {
                &&& centroid_bytes(cs).subrange(16 * i, 16 * i + 8) == word(
                    (#[trigger] cs[i]).mean.bits,
                )
                &&& centroid_bytes(cs).subrange(16 * i + 8, 16 * i + 16) == word(cs[i].weight)
            },
    decreases cs.len(),
{
    if cs.len() > 0 {
        let init = cs.drop_last();
        let last = cs.last();
        lemma_centroid_bytes(init);
        lemma_word(last.mean.bits);
        lemma_word(last.weight);
        let all = centroid_bytes(cs);
        assert forall|i: int| 0 <= i < cs.len() implies {
            &&& all.subrange(16 * i, 16 * i + 8) == word((#[trigger] cs[i]).mean.bits)
            &&& all.subrange(16 * i + 8, 16 * i + 16) == word(cs[i].weight)
        } by {
            if i < cs.len() - 1 {
                assert(init[i] == cs[i]);
                assert(all.subrange(16 * i, 16 * i + 8) =~= centroid_bytes(init).subrange(
                    16 * i,
                    16 * i + 8,
                ));
                assert(all.subrange(16 * i + 8, 16 * i + 16) =~= centroid_bytes(init).subrange(
                    16 * i + 8,
                    16 * i + 16,
                ));
            } else {
                assert(all.subrange(16 * i, 16 * i + 8) =~= word(last.mean.bits));
                assert(all.subrange(16 * i + 8, 16 * i + 16) =~= word(last.weight));
            }
        }
    }
}

/// The bytes of a list of centroids are those of its centroids.
proof fn lemma_centroids_read(bytes: Seq<u8>, at: int, cs: Seq<Centroid>)
    requires
        0 <= at,
        at + 16 * cs.len() <= bytes.len(),
        forall|i: int| 0 <= i < cs.len() ==> #[trigger] cs[i] == centroid_at(bytes, at + 16 * i),
    ensures
        centroid_bytes(cs) == bytes.subrange(at, at + 16 * cs.len()),
    decreases cs.len(),
{
    if cs.len() > 0 {
        let init = cs.drop_last();
        let n = init.len();
        assert forall|i: int| 0 <= i < init.len() implies #[trigger] init[i] == centroid_at(
            bytes,
            at + 16 * i,
        ) by {
            assert(cs[i] == init[i]);
        }
        lemma_centroids_read(bytes, at, init);
        assert(cs[n as int] == centroid_at(bytes, at + 16 * n));
        lemma_word_at(bytes, at + 16 * n);
        lemma_word_at(bytes, at + 16 * n + 8);
        assert(centroid_bytes(cs) =~= bytes.subrange(at, at + 16 * cs.len()));
    } else {
        assert(centroid_bytes(cs) =~= bytes.subrange(at, at));
    }
}

/// The length of the bytes of a digest.
proof fn lemma_encoded_length(d: InternalTDigestView)
    ensures
        encoded(d).len() == 50 + 16 * d.centroids.len(),
{
    lemma_word(d.centroids.len() as u64);
    lemma_centroid_bytes(d.centroids);
    lemma_word(d.max_size as u64);
    lemma_word(d.sum.bits);
    lemma_word(d.count);
    lemma_word(d.max.bits);
    lemma_word(d.min.bits);
}

/// Reading the bytes of a digest, whatever comes after them, gives the digest back.
pub proof fn law_serialized_digest_reads_back(d: InternalTDigestView, after: Seq<u8>)
    requires
        d.centroids.len() <= usize::MAX,
    ensures
        decoded(encoded(d) + after) == Ok::<InternalTDigestView, WireError>(d),
{
    let bytes = encoded(d) + after;
    let n = d.centroids.len() as int;
    let body = centroid_bytes(d.centroids);
    let tail = 10 + 16 * n;
    lemma_encoded_length(d);
    lemma_word(n as u64);
    lemma_centroid_bytes(d.centroids);
    lemma_word(d.max_size as u64);
    lemma_word(d.sum.bits);
    lemma_word(d.count);
    lemma_word(d.max.bits);
    lemma_word(d.min.bits);
    assert(bytes.subrange(2, 10) =~= word(n as u64));
    lemma_reads_word(bytes, 2, n as u64);
    assert(bytes.subrange(tail, tail + 8) =~= word(d.max_size as u64));
    lemma_reads_word(bytes, tail, d.max_size as u64);
    assert(bytes.subrange(tail + 8, tail + 16) =~= word(d.sum.bits));
    lemma_reads_word(bytes, tail + 8, d.sum.bits);
    assert(bytes.subrange(tail + 16, tail + 24) =~= word(d.count));
    lemma_reads_word(bytes, tail + 16, d.count);
    assert(bytes.subrange(tail + 24, tail + 32) =~= word(d.max.bits));
    lemma_reads_word(bytes, tail + 24, d.max.bits);
    assert(bytes.subrange(tail + 32, tail + 40) =~= word(d.min.bits));
    lemma_reads_word(bytes, tail + 32, d.min.bits);
    assert forall|i: int| 0 <= i < n implies centroid_at(bytes, 10 + 16 * i)
        == #[trigger] d.centroids[i] by {
        assert(bytes.subrange(10 + 16 * i, 18 + 16 * i) =~= body.subrange(16 * i, 16 * i + 8));
        assert(bytes.subrange(18 + 16 * i, 26 + 16 * i) =~= body.subrange(16 * i + 8, 16 * i + 16));
        lemma_reads_word(bytes, 10 + 16 * i, d.centroids[i].mean.bits);
        lemma_reads_word(bytes, 18 + 16 * i, d.centroids[i].weight);
    }
    assert(digest_at(bytes, n) =~= d);
}

/// Bytes that are read as a digest start with the bytes of that digest.
pub proof fn law_read_digest_serializes_back(bytes: Seq<u8>)
    requires
        decoded(bytes) is Ok,
    ensures
        encoded(decoded(bytes)->Ok_0).is_prefix_of(bytes),
{
    let d = decoded(bytes)->Ok_0;
    let n = word_at(bytes, 2);
    let tail = 10 + 16 * n;
    lemma_encoded_length(d);
    lemma_word_at(bytes, 2);
    assert forall|i: int| 0 <= i < d.centroids.len() implies #[trigger] d.centroids[i]
        == centroid_at(bytes, 10 + 16 * i) by {}
    lemma_centroids_read(bytes, 10, d.centroids);
    lemma_word_at(bytes, tail);
    lemma_word_at(bytes, tail + 8);
    lemma_word_at(bytes, tail + 16);
    lemma_word_at(bytes, tail + 24);
    lemma_word_at(bytes, tail + 32);
    assert(encoded(d) =~= bytes.subrange(0, encoded(d).len() as int));
}

/// The bytes of a digest cut short anywhere are refused as such.
pub proof fn law_truncated_digest_is_refused(d: InternalTDigestView, len: int)
    requires
        d.centroids.len() <= usize::MAX,
        0 <= len < encoded(d).len(),
    ensures
        decoded(encoded(d).take(len)) == Err::<InternalTDigestView, WireError>(
            WireError::Truncated,
        ),
{
    let bytes = encoded(d).take(len);
    let n = d.centroids.len() as u64;
    lemma_encoded_length(d);
    lemma_word(n);
    if len >= 10 {
        assert(bytes.subrange(2, 10) =~= word(n));
        lemma_reads_word(bytes, 2, n);
    }
}

/// A number is written as eight bytes, the low byte first.
pub proof fn law_low_byte_comes_first(n: u64)
    ensures
        word(n).len() == 8,
        word(n)[0] == n % 256,
        word(n)[1] == n / 0x100 % 256,
        word(n)[2] == n / 0x1_0000 % 256,
        word(n)[3] == n / 0x100_0000 % 256,
        word(n)[4] == n / 0x1_0000_0000 % 256,
        word(n)[5] == n / 0x100_0000_0000 % 256,
        word(n)[6] == n / 0x1_0000_0000_0000 % 256,
        word(n)[7] == n / 0x100_0000_0000_0000 % 256,
{
    reveal_with_fuel(bytes_of, 9);
    lemma_word(n);
}

/// Eight bytes are read as a number, the low byte first.
pub proof fn law_low_byte_is_read_first(bytes: Seq<u8>, at: int)
    requires
        0 <= at,
        at + 8 <= bytes.len(),
    ensures
        word_at(bytes, at) == bytes[at] + 0x100 * bytes[at + 1] + 0x1_0000 * bytes[at + 2]
            + 0x100_0000 * bytes[at + 3] + 0x1_0000_0000 * bytes[at + 4] + 0x100_0000_0000
            * bytes[at + 5] + 0x1_0000_0000_0000 * bytes[at + 6] + 0x100_0000_0000_0000 * bytes[at
            + 7],
{
    reveal_with_fuel(span, 9);
    reveal_with_fuel(number_of, 9);
    let s = bytes.subrange(at, at + 8);
    lemma_bytes_of_number(s);
    assert(s.skip(1).skip(1) =~= s.skip(2));
    assert(s.skip(2).skip(1) =~= s.skip(3));
    assert(s.skip(3).skip(1) =~= s.skip(4));
    assert(s.skip(4).skip(1) =~= s.skip(5));
    assert(s.skip(5).skip(1) =~= s.skip(6));
    assert(s.skip(6).skip(1) =~= s.skip(7));
    assert(s.skip(7).skip(1) =~= s.skip(8));
    assert(number_of(s.skip(7)) == s[7] + 256 * number_of(s.skip(8)));
    assert(number_of(s.skip(6)) == s[6] + 256 * number_of(s.skip(7)));
    assert(number_of(s.skip(5)) == s[5] + 256 * number_of(s.skip(6)));
    assert(number_of(s.skip(4)) == s[4] + 256 * number_of(s.skip(5)));
    assert(number_of(s.skip(3)) == s[3] + 256 * number_of(s.skip(4)));
    assert(number_of(s.skip(2)) == s[2] + 256 * number_of(s.skip(3)));
    assert(number_of(s.skip(1)) == s[1] + 256 * number_of(s.skip(2)));
}

/// Where each figure of a digest stands in its bytes: two marker bytes, the number of centroids,
/// mean and weight of each centroid, the size, the sum, the count, the largest and the smallest
/// value.
pub proof fn law_every_figure_has_its_place(d: InternalTDigestView)
    requires
        d.centroids.len() <= usize::MAX,
    ensures
        ({
            let bytes = encoded(d);
            let n = d.centroids.len() as int;
            let tail = 10 + 16 * n;
            &&& bytes.len() == 50 + 16 * n
            &&& bytes[0] == 1
            &&& bytes[1] == 1
            &&& word_at(bytes, 2) == n
            &&& forall|i: int|
                0 <= i < n ==> {
                    &&& word_at(bytes, 10 + 16 * i) == (#[trigger] d.centroids[i]).mean.bits
                    &&& word_at(bytes, 18 + 16 * i) == d.centroids[i].weight
                }
            &&& word_at(bytes, tail) == d.max_size
            &&& word_at(bytes, tail + 8) == d.sum.bits
            &&& word_at(bytes, tail + 16) == d.count
            &&& word_at(bytes, tail + 24) == d.max.bits
            &&& word_at(bytes, tail + 32) == d.min.bits
        }),
{
    let bytes = encoded(d);
    let n = d.centroids.len() as int;
    let body = centroid_bytes(d.centroids);
    let tail = 10 + 16 * n;
    lemma_encoded_length(d);
    lemma_word(n as u64);
    lemma_centroid_bytes(d.centroids);
    lemma_word(d.max_size as u64);
    lemma_word(d.sum.bits);
    lemma_word(d.count);
    lemma_word(d.max.bits);
    lemma_word(d.min.bits);
    assert(bytes.subrange(2, 10) =~= word(n as u64));
    lemma_reads_word(bytes, 2, n as u64);
    assert(bytes.subrange(tail, tail + 8) =~= word(d.max_size as u64));
    lemma_reads_word(bytes, tail, d.max_size as u64);
    assert(bytes.subrange(tail + 8, tail + 16) =~= word(d.sum.bits));
    lemma_reads_word(bytes, tail + 8, d.sum.bits);
    assert(bytes.subrange(tail + 16, tail + 24) =~= word(d.count));
    lemma_reads_word(bytes, tail + 16, d.count);
    assert(bytes.subrange(tail + 24, tail + 32) =~= word(d.max.bits));
    lemma_reads_word(bytes, tail + 24, d.max.bits);
    assert(bytes.subrange(tail + 32, tail + 40) =~= word(d.min.bits));
    lemma_reads_word(bytes, tail + 32, d.min.bits);
    assert forall|i: int| 0 <= i < n implies {
        &&& word_at(bytes, 10 + 16 * i) == (#[trigger] d.centroids[i]).mean.bits
        &&& word_at(bytes, 18 + 16 * i) == d.centroids[i].weight
    } by {
        assert(bytes.subrange(10 + 16 * i, 18 + 16 * i) =~= body.subrange(16 * i, 16 * i + 8));
        assert(bytes.subrange(18 + 16 * i, 26 + 16 * i) =~= body.subrange(16 * i + 8, 16 * i + 16));
        lemma_reads_word(bytes, 10 + 16 * i, d.centroids[i].mean.bits);
        lemma_reads_word(bytes, 18 + 16 * i, d.centroids[i].weight);
    }
}

/// Bytes with another version or encoding, and bytes that end before the digest does, are refused,
/// each with its own error; all others are read, as long as the size fits the machine.
pub proof fn law_bytes_are_refused_for_a_reason(bytes: Seq<u8>)
    ensures
        bytes.len() >= 1 && bytes[0] != 1 ==> decoded(bytes) == Err::<
            InternalTDigestView,
            WireError,
        >(WireError::Version),
        bytes.len() >= 2 && bytes[0] == 1 && bytes[1] != 1 ==> decoded(bytes) == Err::<
            InternalTDigestView,
            WireError,
        >(WireError::Encoding),
        (bytes.len() >= 1 ==> bytes[0] == 1) && (bytes.len() >= 2 ==> bytes[1] == 1) && (bytes.len()
            < 10 || bytes.len() < 50 + 16 * word_at(bytes, 2)) ==> decoded(bytes) == Err::<
            InternalTDigestView,
            WireError,
        >(WireError::Truncated),
        bytes.len() >= 10 && bytes[0] == 1 && bytes[1] == 1 && bytes.len() >= 50 + 16 * word_at(
            bytes,
            2,
        ) ==> {
            if word_at(bytes, 10 + 16 * word_at(bytes, 2)) > usize::MAX {
                decoded(bytes) == Err::<InternalTDigestView, WireError>(WireError::Size)
            } else {
                decoded(bytes) is Ok
            }
        },
{
}

/// What a reading shows is what was read.
pub proof fn law_reading_shows_what_was_read(r: Result<InternalTDigest, WireError>)
    ensures
        r is Ok <==> reading(r) is Ok,
        r is Ok ==> reading(r)->Ok_0 == r->Ok_0@,
        r is Err ==> reading(r)->Err_0 == r->Err_0,
{
}

} // verus!
