use vstd::prelude::*;
use vstd::string::StringSliceAdditionalSpecFns;
use sha2::Digest;

verus! {

/// Error raised by the sampler for an invalid bucket configuration.
#[derive(Clone, Copy, PartialEq, Eq, Structural, Debug)]
pub enum SamplingError {
    /// `total_buckets` was zero, so no bucket can be assigned.
    ZeroTotalBuckets,
}

/// The digest that SHA-256 assigns to a byte sequence. It is a fixed
/// function of the bytes alone, the same in every process and on every
/// machine; the `sha2` crate computes it.
pub uninterp spec fn sha256_of(data: Seq<u8>) -> Seq<u8>;

/// Relies on `sha2::Sha256::digest`: returns the 32-byte SHA-256 digest of
/// `data`, a function of the bytes alone.
#[verifier::external_body]
fn sha256(data: &[u8]) -> (r: Vec<u8>)
    ensures
        r@ == sha256_of(data@),
        r@.len() == 32,
{
    sha2::Sha256::digest(data).to_vec()
}

/// The big-endian value of the first four bytes of a digest.
pub open spec fn spec_hash_prefix(d: Seq<u8>) -> int
    recommends
        d.len() >= 4,
{
    d[0] * 0x1000000 + d[1] * 0x10000 + d[2] * 0x100 + d[3]
}

/// The byte string hashed for a bucket assignment: the namespace followed by
/// the randomization identifier.
pub open spec fn spec_bucket_input(ns: Seq<u8>, id: Seq<u8>) -> Seq<u8> {
    ns + id
}

/// The bucket that `(namespace, id)` lands in, out of `total` buckets: the
/// first four digest bytes of `namespace || id`, big-endian, modulo `total`.
pub open spec fn spec_compute_bucket(ns: Seq<u8>, id: Seq<u8>, total: u32) -> int
    recommends
        total > 0,
{
    spec_hash_prefix(sha256_of(spec_bucket_input(ns, id))) % (total as int)
}

/// True iff `bucket` lies in the half-open range `[start, start + count)`
/// taken modulo `total`; the range may wrap around `total`.
pub open spec fn spec_in_range(bucket: u32, start: u32, count: u32, total: u32) -> bool {
    if total == 0 {
        false
    } else if count >= total {
        bucket < total
    } else {
        let s = (start % total) as int;
        if s + count <= total {
            s <= bucket < s + count
        } else {
            bucket < total && (bucket >= s || bucket < s + count - total)
        }
    }
}

/// Deterministic bucket assignment: maps `(namespace, id)` to a stable slot
/// in `[0, total)`, derived from a SHA-256 hash of the two strings, so the
/// same inputs give the same slot across calls, restarts and machines.
/// Fails exactly when `total` is zero.
pub fn compute_bucket(namespace: &str, id: &str, total: u32) -> (r: Result<u32, SamplingError>)
    ensures
        total == 0 <==> r is Err,
        r is Err ==> r == Err::<u32, SamplingError>(SamplingError::ZeroTotalBuckets),
        r is Ok ==> r->Ok_0 == spec_compute_bucket(namespace.spec_bytes(), id.spec_bytes(), total)
            && r->Ok_0 < total,
{
    if total == 0 {
        return Err(SamplingError::ZeroTotalBuckets);
    }
    let ns = namespace.as_bytes();
    let idb = id.as_bytes();
    let mut input: Vec<u8> = Vec::new();
    let mut i: usize = 0;
    while i < ns.len()
        invariant
            i <= ns.len(),
            input@ == ns@.take(i as int),
        decreases ns.len() - i,
    {
        input.push(ns[i]);
        i = i + 1;
    }
    let mut j: usize = 0;
    while j < idb.len()
        invariant
            j <= idb.len(),
            input@ == ns@ + idb@.take(j as int),
        decreases idb.len() - j,
    {
        input.push(idb[j]);
        j = j + 1;
    }
    proof {
        assert(ns@.take(ns@.len() as int) =~= ns@);
        assert(idb@.take(idb@.len() as int) =~= idb@);
        assert(input@ =~= spec_bucket_input(namespace.spec_bytes(), id.spec_bytes()));
    }
    let digest = sha256(input.as_slice());
    let h: u64 = (digest[0] as u64) * 0x1000000 + (digest[1] as u64) * 0x10000 + (digest[2]
        as u64) * 0x100 + (digest[3] as u64);
    let bucket = (h % (total as u64)) as u32;
    Ok(bucket)
}

/// True iff `bucket` lies in `[start, start + count)` modulo `total`; ranges
/// may wrap around `total`. A `total` of zero admits no bucket.
pub fn is_in_range(bucket: u32, start: u32, count: u32, total: u32) -> (r: bool)
    ensures
        r == spec_in_range(bucket, start, count, total),
{
    if total == 0 {
        false
    } else if count >= total {
        bucket < total
    } else {
        let s = start % total;
        if s as u64 + count as u64 <= total as u64 {
            s <= bucket && bucket < s + count
        } else {
            bucket < total && (bucket >= s || (bucket as u64) < s as u64 + count as u64 - total
                as u64)
        }
    }
}

/// Bucket assignment is a function of `(namespace, id, total)` alone: two
/// computations on equal inputs agree, across repeated calls and across
/// process restarts.
pub proof fn lemma_compute_bucket_deterministic(
    ns1: Seq<u8>,
    id1: Seq<u8>,
    ns2: Seq<u8>,
    id2: Seq<u8>,
    total: u32,
)
    requires
        ns1 == ns2,
        id1 == id2,
    ensures
        spec_compute_bucket(ns1, id1, total) == spec_compute_bucket(ns2, id2, total),
{
}

} // verus!
