use bbloom::{FilterError, Fpp, ScalableBloomFilter};

fn target_fpp() -> Fpp {
    Fpp::new(1, 10000).unwrap()
}

#[test]
fn test_insert_then_contains_scalable() {
    let mut filter = ScalableBloomFilter::new(&target_fpp(), 64).unwrap();
    filter.insert(b"a").unwrap();
    assert!(filter.contains(b"a"));
    assert!(!filter.contains(b"b"));
}

#[test]
fn test_growth_trigger() {
    // capacity 4: the fifth insertion grows the structure to a second
    // layer whose target capacity is 4 * 2 = 8 and whose target
    // false-positive probability is 0.0001 * 0.85
    let mut filter = ScalableBloomFilter::new(&target_fpp(), 4).unwrap();
    assert_eq!(filter.filter_count(), 1);
    assert_eq!(filter.total_capacity(), 4);
    let keys: [&[u8]; 5] = [b"k1", b"k2", b"k3", b"k4", b"k5"];
    for key in keys {
        assert!(filter.insert(key).unwrap());
    }
    assert_eq!(filter.filter_count(), 2);
    // cumulative capacity 4 + 8: the second layer's own target is 8
    assert_eq!(filter.total_capacity(), 12);
    let p = filter.last_fpp();
    assert_eq!(p.num(), 17);
    assert_eq!(p.den(), 200000);
    assert_eq!(filter.len(), 5);
    for key in keys {
        assert!(filter.contains(key));
    }
}

#[test]
fn test_no_false_negatives_across_growth() {
    let mut filter = ScalableBloomFilter::new(&Fpp::new(1, 1000).unwrap(), 4).unwrap();
    let mut keys = Vec::new();
    for i in 0..200 {
        keys.push(format!("stream-{}", i));
    }
    for k in &keys {
        filter.insert(k.as_bytes()).unwrap();
    }
    assert!(filter.filter_count() > 2);
    for k in &keys {
        assert!(filter.contains(k.as_bytes()));
    }
}

#[test]
fn test_contains_or_insert_reports_presence() {
    let mut filter = ScalableBloomFilter::new(&target_fpp(), 64).unwrap();
    assert!(!filter.contains_or_insert(b"a").unwrap());
    assert!(!filter.contains_or_insert(b"b").unwrap());
    assert!(filter.contains_or_insert(b"b").unwrap());
}

#[test]
fn test_contains_or_insert_equivalence() {
    // replay the same operations on two identically built filters: one
    // through contains_or_insert, the other through contains followed by
    // insert when absent; results and observable state must agree
    let mut ops: Vec<String> = Vec::new();
    for i in 0..60 {
        ops.push(format!("op-{}", i % 37));
    }
    let mut f1 = ScalableBloomFilter::new(&target_fpp(), 4).unwrap();
    let mut f2 = ScalableBloomFilter::new(&target_fpp(), 4).unwrap();
    for key in &ops {
        let r1 = f1.contains_or_insert(key.as_bytes()).unwrap();
        let c = f2.contains(key.as_bytes());
        if !c {
            f2.insert(key.as_bytes()).unwrap();
        }
        let r2 = c;
        assert_eq!(r1, r2, "diverged on {}", key);
        assert_eq!(f1.len(), f2.len());
        assert_eq!(f1.filter_count(), f2.filter_count());
        assert_eq!(f1.total_capacity(), f2.total_capacity());
    }
    for i in 0..100 {
        let probe = format!("probe-{}", i);
        assert_eq!(f1.contains(probe.as_bytes()), f2.contains(probe.as_bytes()));
    }
}

#[test]
fn test_insert_counts_against_current_layer_only() {
    let mut filter = ScalableBloomFilter::new(&target_fpp(), 4).unwrap();
    assert!(filter.insert(b"dup").unwrap());
    assert!(!filter.insert(b"dup").unwrap());
    assert_eq!(filter.len(), 1);
}

#[test]
fn test_reinsert_after_growth_marks_current_layer() {
    // a key held by an older layer is still newly marked in the current
    // one: structural duplication is permitted, and only the current
    // layer's load governs growth
    let mut filter = ScalableBloomFilter::new(&target_fpp(), 4).unwrap();
    let keys: [&[u8]; 5] = [b"k1", b"k2", b"k3", b"k4", b"k5"];
    for key in keys {
        filter.insert(key).unwrap();
    }
    assert_eq!(filter.filter_count(), 2);
    assert!(filter.contains(b"k1"));
    assert!(filter.insert(b"k1").unwrap());
    assert_eq!(filter.len(), 6);
}

#[test]
fn test_scalable_construction_rejects_misuse() {
    assert!(matches!(
        ScalableBloomFilter::new(&target_fpp(), 0),
        Err(FilterError::InvalidConfiguration)
    ));
    assert!(matches!(
        ScalableBloomFilter::new(&Fpp::new(1, 1).unwrap(), 64),
        Err(FilterError::InvalidConfiguration)
    ));
    assert!(matches!(
        ScalableBloomFilter::new(&Fpp::new(1, u64::MAX).unwrap(), usize::MAX),
        Err(FilterError::CapacityOverflow)
    ));
}
