//! Digests as plain values.

use vstd::prelude::*;

use crate::binary64::Binary64;

verus! {

/// A cluster of values: their mean and how many of them there are.
#[derive(Clone, Copy, Debug, PartialEq, Eq, Structural)]
pub struct Centroid {
    pub mean: Binary64,
    pub weight: u64,
}

impl Centroid {
    /// A cluster with the given mean and weight.
    pub fn new(mean: Binary64, weight: u64) -> (r: Centroid)
        ensures
            r == (Centroid { mean, weight }),
    {
        Centroid { mean, weight }
    }
}

/// A digest as it is stored and shown to users.
#[derive(Debug)]
pub struct TDigest {
    /// The number of centroids.
    pub buckets: u32,
    /// The number of centroids that the digest may grow to.
    pub max_buckets: u32,
    /// The number of values that were entered.
    pub count: u64,
    pub sum: Binary64,
    pub min: Binary64,
    pub max: Binary64,
    pub centroids: Vec<Centroid>,
}

/// A digest as the digest engine holds it.
#[derive(Debug)]
pub struct InternalTDigest {
    pub centroids: Vec<Centroid>,
    pub sum: Binary64,
    pub count: u64,
    pub max: Binary64,
    pub min: Binary64,
    pub max_size: usize,
}

/// What a stored digest holds.
#[verifier::ext_equal]
pub struct TDigestView {
    pub buckets: u32,
    pub max_buckets: u32,
    pub count: u64,
    pub sum: Binary64,
    pub min: Binary64,
    pub max: Binary64,
    pub centroids: Seq<Centroid>,
}

/// What a digest of the engine holds.
#[verifier::ext_equal]
pub struct InternalTDigestView {
    pub centroids: Seq<Centroid>,
    pub sum: Binary64,
    pub count: u64,
    pub max: Binary64,
    pub min: Binary64,
    pub max_size: usize,
}

impl View for TDigest {
    type V = TDigestView;

    open spec fn view(&self) -> TDigestView {
        TDigestView {
            buckets: self.buckets,
            max_buckets: self.max_buckets,
            count: self.count,
            sum: self.sum,
            min: self.min,
            max: self.max,
            centroids: self.centroids@,
        }
    }
}

impl View for InternalTDigest {
    type V = InternalTDigestView;

    open spec fn view(&self) -> InternalTDigestView {
        InternalTDigestView {
            centroids: self.centroids@,
            sum: self.sum,
            count: self.count,
            max: self.max,
            min: self.min,
            max_size: self.max_size,
        }
    }
}

impl TDigestView {
    /// The bucket count is the number of centroids.
    pub open spec fn counted(self) -> bool {
        self.buckets == self.centroids.len()
    }

    /// The digest that the engine holds for this one.
    pub open spec fn internal(self) -> InternalTDigestView {
        InternalTDigestView {
            centroids: self.centroids,
            sum: self.sum,
            count: self.count,
            max: self.max,
            min: self.min,
            max_size: self.max_buckets as usize,
        }
    }
}

impl InternalTDigestView {
    /// The digest that is stored for this one. The bucket count is kept modulo two to the
    /// power of 32.
    pub open spec fn external(self) -> TDigestView {
        TDigestView {
            buckets: (self.centroids.len() % 0x1_0000_0000) as u32,
            max_buckets: self.max_size as u32,
            count: self.count,
            sum: self.sum,
            min: self.min,
            max: self.max,
            centroids: self.centroids,
        }
    }
}

/// A copy of a list of centroids.
pub fn copy_centroids(centroids: &Vec<Centroid>) -> (r: Vec<Centroid>)
    ensures
        r@ == centroids@,
{
    let mut out: Vec<Centroid> = Vec::new();
    let mut i: usize = 0;
    while i < centroids.len()
        invariant
            i <= centroids.len(),
            out@ == centroids@.take(i as int),
        decreases centroids.len() - i,
    {
        out.push(centroids[i]);
        i = i + 1;
        assert(out@ == centroids@.take(i as int));
    }
    assert(centroids@.take(i as int) == centroids@);
    out
}

impl InternalTDigest {
    /// A digest with the given parts.
    pub fn new(
        centroids: Vec<Centroid>,
        sum: Binary64,
        count: u64,
        max: Binary64,
        min: Binary64,
        max_size: usize,
    ) -> (r: InternalTDigest)
        ensures
            r@ == (InternalTDigestView { centroids: centroids@, sum, count, max, min, max_size }),
            r.centroids@ == centroids@,
            r.sum == sum,
            r.count == count,
            r.max == max,
            r.min == min,
            r.max_size == max_size,
    {
        InternalTDigest { centroids, sum, count, max, min, max_size }
    }
}

impl TDigest {
    /// The digest in the form that the engine works on.
    pub fn to_internal_tdigest(&self) -> (r: InternalTDigest)
        ensures
            r@ == self@.internal(),
            r.centroids@ == self.centroids@,
            r.sum == self.sum,
            r.count == self.count,
            r.max == self.max,
            r.min == self.min,
            r.max_size == self.max_buckets,
    {
        InternalTDigest::new(
            copy_centroids(&self.centroids),
            self.sum,
            self.count,
            self.max,
            self.min,
            self.max_buckets as usize,
        )
    }

    /// The digest in the form that is stored. A size that does not fit its field is refused by
    /// the caller.
    pub fn from_internal_tdigest(digest: &InternalTDigest) -> (r: TDigest)
        requires
            digest.max_size <= u32::MAX,
        ensures
            r@ == digest@.external(),
            r.centroids@ == digest.centroids@,
            r.sum == digest.sum,
            r.count == digest.count,
            r.max == digest.max,
            r.min == digest.min,
            r.max_buckets == digest.max_size,
            digest.centroids.len() <= u32::MAX ==> r.buckets == digest.centroids.len(),
    {
        let centroids: Vec<Centroid> = copy_centroids(&digest.centroids);
        let buckets: u32 = (centroids.len() as u64 % 0x1_0000_0000) as u32;
        TDigest {
            buckets,
            max_buckets: digest.max_size as u32,
            count: digest.count,
            sum: digest.sum,
            min: digest.min,
            max: digest.max,
            centroids,
        }
    }

    /// A digest that was read from text: the bucket count is not read but computed from the
    /// centroids.
    pub fn recounted(self) -> (r: TDigest)
        requires
            self.centroids.len() <= u32::MAX,
        ensures
            r@.counted(),
            r@ == (TDigestView { buckets: r.buckets, ..self@ }),
            r.buckets == self.centroids.len(),
            r.centroids@ == self.centroids@,
            r.sum == self.sum,
            r.count == self.count,
            r.max == self.max,
            r.min == self.min,
            r.max_buckets == self.max_buckets,
    {
        let buckets: u32 = self.centroids.len() as u32;
        TDigest {
            buckets,
            max_buckets: self.max_buckets,
            count: self.count,
            sum: self.sum,
            min: self.min,
            max: self.max,
            centroids: self.centroids,
        }
    }
}

/// Storing a digest of the engine and reading it back gives the same digest.
pub proof fn law_stored_digest_reads_back(d: InternalTDigestView)
    requires
        d.max_size <= u32::MAX,
    ensures
        d.external().internal() == d,
{
}

/// A stored digest whose buckets are counted survives the way through the engine's form.
pub proof fn law_engine_form_reads_back(d: TDigestView)
    requires
        d.counted(),
    ensures
        d.internal().external() == d,
{
}

/// A digest of the engine with at most two to the power of 32, less one, centroids is stored
/// with its buckets counted.
pub proof fn law_stored_digest_is_counted(d: InternalTDigestView)
    requires
        d.centroids.len() <= u32::MAX,
    ensures
        d.external().counted(),
{
}

/// What a stored digest holds is what its fields hold.
pub proof fn law_stored_digest_shows_its_fields(d: TDigest)
    ensures
        d@.buckets == d.buckets,
        d@.max_buckets == d.max_buckets,
        d@.count == d.count,
        d@.sum == d.sum,
        d@.min == d.min,
        d@.max == d.max,
        d@.centroids == d.centroids@,
{
}

/// What a digest of the engine holds is what its fields hold.
pub proof fn law_engine_digest_shows_its_fields(d: InternalTDigest)
    ensures
        d@.centroids == d.centroids@,
        d@.sum == d.sum,
        d@.count == d.count,
        d@.max == d.max,
        d@.min == d.min,
        d@.max_size == d.max_size,
{
}

/// Storing a digest of the engine keeps its extremes, its sum, its count and its centroids, each
/// in its own place.
pub proof fn law_storing_keeps_every_figure(d: InternalTDigestView)
    requires
        d.max_size <= u32::MAX,
    ensures
        d.external().min == d.min,
        d.external().max == d.max,
        d.external().sum == d.sum,
        d.external().count == d.count,
        d.external().centroids == d.centroids,
        d.external().max_buckets == d.max_size,
        d.centroids.len() <= u32::MAX ==> d.external().buckets == d.centroids.len(),
{
}

/// Handing a stored digest to the engine keeps its extremes, its sum, its count and its centroids,
/// each in its own place.
pub proof fn law_handing_over_keeps_every_figure(d: TDigestView)
    ensures
        d.internal().min == d.min,
        d.internal().max == d.max,
        d.internal().sum == d.sum,
        d.internal().count == d.count,
        d.internal().centroids == d.centroids,
        d.internal().max_size == d.max_buckets,
{
}

} // verus!
