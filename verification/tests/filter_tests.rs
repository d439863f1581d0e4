use bbloom::{BloomFilter, FilterError, Fpp, HashBuilder};

fn small_fpp() -> Fpp {
    Fpp::new(1, 10000).unwrap()
}

#[test]
fn test_insert_then_contains() {
    let mut filter = BloomFilter::from_fpp(&small_fpp(), 64).unwrap();
    assert!(filter.insert(b"a"));
    assert!(filter.insert(b"b"));
    assert!(filter.contains(b"a"));
    assert!(filter.contains(b"b"));
    assert!(!filter.contains(b"c"));
}

#[test]
fn test_insert_idempotence_signal() {
    let mut filter = BloomFilter::from_fpp(&small_fpp(), 64).unwrap();
    assert!(filter.insert(b"b"));
    assert!(!filter.insert(b"b"));
    assert_eq!(filter.len(), 1);
}

#[test]
fn test_no_false_negatives_many_keys() {
    let mut filter = BloomFilter::from_fpp(&Fpp::new(1, 100).unwrap(), 128).unwrap();
    let mut keys = Vec::new();
    for i in 0..128 {
        keys.push(format!("key-{}", i));
    }
    for k in &keys {
        filter.insert(k.as_bytes());
    }
    for k in &keys {
        assert!(filter.contains(k.as_bytes()));
    }
    assert_eq!(filter.len(), 128);
}

#[test]
fn test_false_positive_rate_near_target() {
    // statistical: load a 1% filter to its design point and probe keys
    // never inserted; the empirical rate should be near the target
    let mut filter = BloomFilter::from_fpp(&Fpp::new(1, 100).unwrap(), 128).unwrap();
    for i in 0..128 {
        filter.insert(format!("member-{}", i).as_bytes());
    }
    let probes = 20000;
    let mut false_positives = 0;
    for i in 0..probes {
        if filter.contains(format!("absent-{}", i).as_bytes()) {
            false_positives += 1;
        }
    }
    let rate = false_positives as f64 / probes as f64;
    assert!(rate < 0.03, "false positive rate {} is far above the 1% target", rate);
}

#[test]
fn test_capacity_and_len() {
    let filter = BloomFilter::new(1227, 7).unwrap();
    assert_eq!(filter.capacity(), 1227);
    assert_eq!(filter.len(), 0);
    assert!(filter.is_empty());
    let mut filter = filter;
    filter.insert(b"a");
    assert_eq!(filter.len(), 1);
    assert!(!filter.is_empty());
    filter.insert(b"b");
    assert_eq!(filter.len(), 2);
}

#[test]
fn test_from_fpp_dimensions() {
    let filter = BloomFilter::from_fpp(&Fpp::new(1, 100).unwrap(), 128).unwrap();
    assert_eq!(filter.capacity(), 1227);
}

#[test]
fn test_construction_rejects_misuse() {
    assert!(matches!(BloomFilter::new(0, 7), Err(FilterError::InvalidConfiguration)));
    assert!(matches!(BloomFilter::new(128, 0), Err(FilterError::InvalidConfiguration)));
    assert!(matches!(
        BloomFilter::from_fpp(&small_fpp(), 0),
        Err(FilterError::InvalidConfiguration)
    ));
    // a probability of one derives a zero-sized bit array
    assert!(matches!(
        BloomFilter::from_fpp(&Fpp::new(1, 1).unwrap(), 64),
        Err(FilterError::InvalidConfiguration)
    ));
}

#[test]
fn test_construction_rejects_unallocatable_sizes() {
    // the derived bit count does not fit in a machine word
    assert!(matches!(
        BloomFilter::from_fpp(&Fpp::new(1, u64::MAX).unwrap(), usize::MAX),
        Err(FilterError::CapacityOverflow)
    ));
}

#[test]
fn test_with_hashers_explicit_seeds() {
    let mut f1 = BloomFilter::with_hashers(
        1024,
        5,
        HashBuilder::new(7),
        HashBuilder::new(13),
    )
    .unwrap();
    let mut f2 = BloomFilter::with_hashers(
        1024,
        5,
        HashBuilder::new(7),
        HashBuilder::new(13),
    )
    .unwrap();
    // identical seeds give identical behaviour
    assert!(f1.insert(b"x"));
    assert!(f2.insert(b"x"));
    assert!(!f1.insert(b"x"));
    assert!(!f2.insert(b"x"));
    assert_eq!(f1.contains(b"y"), f2.contains(b"y"));
}

#[test]
fn test_from_fpp_with_hashers() {
    let mut f = BloomFilter::from_fpp_with_hashers(
        &Fpp::new(1, 100).unwrap(),
        128,
        HashBuilder::new(1),
        HashBuilder::new(2),
    )
    .unwrap();
    assert_eq!(f.capacity(), 1227);
    assert!(f.insert(b"a"));
    assert!(f.contains(b"a"));
}
