use bbloom::{DoubleHasher, HashBuilder};

#[test]
fn test_digest_deterministic_for_fixed_builder() {
    let b = HashBuilder::new(0x1234);
    let d1 = b.digest(b"hello");
    let d2 = b.digest(b"hello");
    assert_eq!(d1, d2);
    let b2 = HashBuilder::new(0x1234);
    assert_eq!(b2.digest(b"hello"), d1);
}

#[test]
fn test_digest_depends_on_key_and_seed() {
    let b = HashBuilder::new(0x1234);
    assert_ne!(b.digest(b"hello"), b.digest(b"world"));
    let c = HashBuilder::new(0x5678);
    assert_ne!(b.digest(b"hello"), c.digest(b"hello"));
    // the digest folds the bytes in; an empty key returns the seed untouched
    assert_eq!(b.digest(b""), 0x1234);
    assert_ne!(b.digest(b"a"), 0x1234);
}

#[test]
fn test_double_hasher_sequences_are_identical() {
    let b1 = HashBuilder::new(11);
    let b2 = HashBuilder::new(22);
    let mut g1 = DoubleHasher::new(b"some key", &b1, &b2);
    let mut g2 = DoubleHasher::new(b"some key", &b1, &b2);
    for _ in 0..20 {
        assert_eq!(g1.next(), g2.next());
    }
}

#[test]
fn test_double_hasher_recurrence() {
    let b1 = HashBuilder::new(11);
    let b2 = HashBuilder::new(22);
    let mut g = DoubleHasher::new(b"some key", &b1, &b2);
    let mut seq = Vec::new();
    for _ in 0..20 {
        seq.push(g.next());
    }
    assert_eq!(seq[0], b1.digest(b"some key"));
    assert_eq!(seq[1], b2.digest(b"some key"));
    for i in 2..20usize {
        assert_eq!(seq[i], seq[0].wrapping_add((i as u64).wrapping_mul(seq[1])));
    }
}
