use delta_sync::bloom::{BloomFilter, FilterSizing};

/// The integer sizing the harness derives from a target false-positive
/// rate: bits per key scaled by a thousand, and the probe count.
fn sizing_for_fpr(fpr: f64) -> FilterSizing {
    let ln2 = std::f64::consts::LN_2;
    let millibits = (-fpr.ln() / (ln2 * ln2) * 1000.0).ceil() as u64;
    let hashes = (-fpr.ln() / ln2).ceil() as u64;
    FilterSizing::new(millibits, hashes).unwrap()
}

#[test]
fn membership_test() {
    let sizing = sizing_for_fpr(0.01);
    let mut filter = BloomFilter::new(100, &sizing);

    assert!(!filter.contains(&b"a".to_vec()));
    assert!(!filter.contains(&b"b".to_vec()));

    filter.insert(&b"a".to_vec());
    assert!(filter.contains(&b"a".to_vec()));
}

#[test]
fn test_membership_and_no_false_positives() {
    let sizing = sizing_for_fpr(0.01);
    let mut bloom = BloomFilter::new(100, &sizing);

    assert!(!bloom.contains(&b"1".to_vec()));
    assert!(!bloom.contains(&b"2".to_vec()));

    bloom.insert(&b"1".to_vec());
    assert!(bloom.contains(&b"1".to_vec()));
}

#[test]
fn bloom_no_false_negatives() {
    // every inserted key is reported, whatever else was inserted
    let sizing = sizing_for_fpr(0.01);
    let mut filter = BloomFilter::new(1000, &sizing);
    let keys: Vec<Vec<u8>> = (0..1000u64).map(|i| i.to_le_bytes().to_vec()).collect();
    for k in keys.iter() {
        filter.insert(k);
    }
    for k in keys.iter() {
        assert!(filter.contains(k));
    }
}

#[test]
fn bloom_density_bound() {
    // with n keys inserted at rate 0.01, the observed false-positive rate
    // over a large disjoint sample stays within twice the target
    let sizing = sizing_for_fpr(0.01);
    let mut filter = BloomFilter::new(1000, &sizing);
    for i in 0..1000u64 {
        filter.insert(&i.to_le_bytes().to_vec());
    }
    let mut hits = 0usize;
    let samples = 10_000u64;
    for i in 0..samples {
        let probe = (1_000_000 + i).to_le_bytes().to_vec();
        if filter.contains(&probe) {
            hits += 1;
        }
    }
    let observed = hits as f64 / samples as f64;
    assert!(observed <= 2.0 * 0.01, "observed false-positive rate {observed} too high");
}

#[test]
fn sizing_rejects_zero() {
    assert!(FilterSizing::new(0, 7).is_err());
    assert!(FilterSizing::new(9600, 0).is_err());
    assert!(FilterSizing::new(9600, 7).is_ok());
}
