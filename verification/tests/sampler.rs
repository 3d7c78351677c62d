use nimbus_core::sampling::{compute_bucket, is_in_range, SamplingError};

#[test]
fn bucket_matches_known_digest() {
    // SHA-256 of the empty string starts e3 b0 c4 42; the first four bytes
    // big-endian, modulo 256, give 0x42.
    assert_eq!(compute_bucket("", "", 256), Ok(66));
    // SHA-256 of "ab" starts fb 8e 20 fc: 4220395772 modulo 1000 is 772.
    assert_eq!(compute_bucket("a", "b", 1000), Ok(772));
}

#[test]
fn bucket_is_deterministic() {
    let a = compute_bucket("namespace-1", "client-abc", 10000).unwrap();
    for _ in 0..10 {
        assert_eq!(compute_bucket("namespace-1", "client-abc", 10000).unwrap(), a);
    }
    assert!(a < 10000);
}

#[test]
fn zero_total_is_an_error() {
    assert_eq!(compute_bucket("ns", "id", 0), Err(SamplingError::ZeroTotalBuckets));
}

#[test]
fn in_range_plain_and_wrapping() {
    assert!(is_in_range(5, 0, 10, 100));
    assert!(!is_in_range(10, 0, 10, 100));
    assert!(is_in_range(0, 0, 10, 100));
    // Wrap-around: [90, 90+20) mod 100 covers 90..100 and 0..10.
    assert!(is_in_range(95, 90, 20, 100));
    assert!(is_in_range(5, 90, 20, 100));
    assert!(!is_in_range(50, 90, 20, 100));
    // A count covering everything admits every bucket.
    assert!(is_in_range(7, 3, 100, 100));
    // Zero total admits nothing.
    assert!(!is_in_range(0, 0, 10, 0));
    // Zero count admits nothing.
    assert!(!is_in_range(0, 0, 0, 10000));
}

#[test]
fn buckets_distribute_close_to_uniform() {
    let total: u32 = 10000;
    let count: u32 = 1000;
    let samples: usize = 10000;
    let mut inside: usize = 0;
    for i in 0..samples {
        let id = format!("client-{}", i);
        let b = compute_bucket("dist-ns", &id, total).unwrap();
        if is_in_range(b, 0, count, total) {
            inside += 1;
        }
    }
    // Expect about 10% of identifiers inside a 10% range.
    assert!(inside > 700, "only {} of {} inside", inside, samples);
    assert!(inside < 1300, "as many as {} of {} inside", inside, samples);
}
