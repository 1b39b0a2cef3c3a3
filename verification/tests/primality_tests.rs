use kyopro::primality_check::is_prime;

#[test]
fn is_prime_small_values() {
    assert!(!is_prime(0));
    assert!(!is_prime(1));
    assert!(is_prime(2));
    assert!(is_prime(3));
    assert!(!is_prime(4));
    assert!(is_prime(5));
    assert!(!is_prime(9));
    assert!(is_prime(61));
    assert!(!is_prime(91));
    assert!(is_prime(1_000_000_007));
}

#[test]
fn is_prime_large_values() {
    // 2^61 - 1, a Mersenne prime, exercises the long witness list
    assert!(is_prime(2305843009213693951));
    // an odd composite above the witness-list threshold
    assert!(!is_prime(3 * 4759123141));
    assert!(!is_prime(2305843009213693951 - 2));
}
