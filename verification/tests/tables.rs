use ecm::table::{is_small_prime, table_in_order};

#[test]
fn is_small_prime_knows_the_primes() {
    let primes = [2u64, 3, 5, 7, 11, 13, 97, 7919, 1_000_003, 4_294_967_291];
    for p in primes {
        assert!(is_small_prime(p), "{}", p);
    }
    let others = [0u64, 1, 4, 6, 9, 15, 25, 49, 8051, 7917, 1_000_001, 4_294_967_295];
    for c in others {
        assert!(!is_small_prime(c), "{}", c);
    }
}

#[test]
fn table_in_order_takes_gaps_between_primes() {
    assert!(table_in_order(&[]));
    assert!(table_in_order(&[1]));
    assert!(table_in_order(&[1, 1, 2, 1, 2, 1, 2, 3, 1, 3, 2, 1, 2, 3]));
    // The last gap leads to a candidate that is not tried.
    assert!(table_in_order(&[1, 1, 1]));
    assert!(table_in_order(&[1, 1, 0]));
}

#[test]
fn table_in_order_refuses_a_candidate_that_is_no_prime() {
    // 3, 5, 7, then 9.
    assert!(!table_in_order(&[1, 1, 1, 1]));
    // 3, then 9.
    assert!(!table_in_order(&[3, 1]));
}

#[test]
fn table_in_order_refuses_a_prime_twice() {
    assert!(!table_in_order(&[1, 0, 1]));
    assert!(!table_in_order(&[0, 1]));
}
