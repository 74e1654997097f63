use kvstore::BloomFilter;

#[test]
fn test_bloom_filter_basic() {
    let mut bloom = BloomFilter::new(100, 10);

    // Add some keys
    bloom.add(b"apple");
    bloom.add(b"banana");
    bloom.add(b"cherry");

    // Test membership
    assert!(bloom.may_contain(b"apple"));
    assert!(bloom.may_contain(b"banana"));
    assert!(bloom.may_contain(b"cherry"));

    // These should return false (not added)
    // Note: False positives are possible but unlikely with 10 bits/key
    assert!(!bloom.may_contain(b"durian"));
    assert!(!bloom.may_contain(b"elderberry"));
}

#[test]
fn test_bloom_filter_no_false_negatives() {
    let mut bloom = BloomFilter::new(1000, 10);

    // Add many keys
    let keys: Vec<Vec<u8>> = (0..100)
        .map(|i| format!("key{:03}", i).into_bytes())
        .collect();

    for key in &keys {
        bloom.add(key);
    }

    // All added keys must return true (no false negatives)
    for key in &keys {
        assert!(
            bloom.may_contain(key),
            "False negative for key: {:?}",
            String::from_utf8_lossy(key)
        );
    }
}

#[test]
fn test_bloom_filter_false_positive_rate() {
    let num_keys = 1000;
    let bits_per_key = 10;

    let mut bloom = BloomFilter::new(num_keys, bits_per_key);

    // Add keys
    for i in 0..num_keys {
        let key = format!("key{:06}", i);
        bloom.add(key.as_bytes());
    }

    // Test with keys not in the filter
    let mut false_positives = 0;
    let test_count = 10000;

    for i in num_keys..(num_keys + test_count) {
        let key = format!("key{:06}", i);
        if bloom.may_contain(key.as_bytes()) {
            false_positives += 1;
        }
    }

    let fp_rate = false_positives as f64 / test_count as f64;

    // With 10 bits/key, false positive rate should be around 1%
    // Allow some tolerance (0.5% - 2%)
    println!("False positive rate: {:.2}%", fp_rate * 100.0);
    assert!(
        fp_rate < 0.02,
        "False positive rate too high: {:.2}%",
        fp_rate * 100.0
    );
}

#[test]
fn test_bloom_filter_serialization() {
    let mut bloom1 = BloomFilter::new(100, 10);

    bloom1.add(b"test1");
    bloom1.add(b"test2");
    bloom1.add(b"test3");

    // Serialize
    let bytes = bloom1.as_bytes().to_vec();
    let num_hashes = bloom1.num_hashes();

    // Deserialize
    let bloom2 = BloomFilter::with_bytes(bytes, num_hashes);

    // Should have same membership results
    assert!(bloom2.may_contain(b"test1"));
    assert!(bloom2.may_contain(b"test2"));
    assert!(bloom2.may_contain(b"test3"));
    assert!(!bloom2.may_contain(b"test4"));
}

#[test]
fn test_bloom_filter_empty() {
    let bloom = BloomFilter::new(100, 10);

    // Empty filter should return false for everything
    assert!(!bloom.may_contain(b"anything"));
    assert!(!bloom.may_contain(b"test"));
}

#[test]
fn test_bloom_filter_num_hashes() {
    let bloom = BloomFilter::new(100, 10);

    // With 10 bits/key, num_hashes should be around 7
    // (0.69 * 10 = 6.9, rounded up to 7)
    assert_eq!(bloom.num_hashes(), 7);
}
