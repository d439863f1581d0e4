use bbloom::{optimal_number_of_hash_functions, optimal_required_bits, Fpp};

#[test]
fn test_optimal_required_bits() {
    let p = Fpp::new(1, 100).unwrap();
    let n = 128;
    let m = optimal_required_bits(&p, n);
    assert_eq!(m, 1227);
}

#[test]
fn test_optimal_number_of_hash_functions() {
    let m = 1227;
    let n = 128;
    let k = optimal_number_of_hash_functions(m, n);
    assert_eq!(k, 7);
}

#[test]
fn test_required_bits_more_vectors() {
    let p = Fpp::new(1, 10000).unwrap();
    assert_eq!(optimal_required_bits(&p, 4), 77);
    assert_eq!(optimal_required_bits(&p, 64), 1227);
    let p2 = Fpp::new(17, 200000).unwrap();
    assert_eq!(optimal_required_bits(&p2, 8), 157);
}

#[test]
fn test_hash_functions_more_vectors() {
    assert_eq!(optimal_number_of_hash_functions(77, 4), 14);
    assert_eq!(optimal_number_of_hash_functions(157, 8), 14);
    // one hash function suffices when the array hardly exceeds the load
    assert_eq!(optimal_number_of_hash_functions(1, 1), 1);
}

#[test]
fn test_required_bits_of_probability_one_is_zero() {
    let p = Fpp::new(1, 1).unwrap();
    assert_eq!(optimal_required_bits(&p, 128), 0);
}

#[test]
fn test_required_bits_of_zero_count_is_zero() {
    let p = Fpp::new(1, 100).unwrap();
    assert_eq!(optimal_required_bits(&p, 0), 0);
}

#[test]
fn test_fpp_rejects_invalid_ratios() {
    assert!(Fpp::new(0, 100).is_err());
    assert!(Fpp::new(2, 1).is_err());
    assert!(Fpp::new(5, 0).is_err());
    assert!(Fpp::new(1, 1).is_ok());
    assert!(Fpp::new(1, u64::MAX).is_ok());
}

#[test]
fn test_tightened_is_exact_in_range() {
    let p = Fpp::new(1, 10000).unwrap();
    let t = p.tightened();
    assert_eq!(t.num(), 17);
    assert_eq!(t.den(), 200000);
    let t2 = t.tightened();
    assert_eq!(t2.num(), 17 * 17);
    assert_eq!(t2.den(), 200000 * 20);
}

#[test]
fn test_tightened_stays_valid_near_the_limit() {
    let p = Fpp::new(u64::MAX - 1, u64::MAX).unwrap();
    let t = p.tightened();
    assert!(t.num() >= 1);
    assert!(t.num() <= t.den());
}
