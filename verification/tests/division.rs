use ecm::factor::{cofactor, is_factorable, power_in, trial_division, Factor};
use gmp::mpz::Mpz;

// Half the gaps between the odd primes from 3 to 47; the last entry leads
// on to 53, which is not tried.
const GAPS: [u32; 14] = [1, 1, 2, 1, 2, 1, 2, 3, 1, 3, 2, 1, 2, 3];

fn big(v: u64) -> Mpz {
    Mpz::from(v)
}

fn pairs(factors: &[Factor]) -> Vec<(Mpz, u32)> {
    factors.iter().map(|f| (f.prime.clone(), f.exp)).collect()
}

#[test]
fn new_factor_has_exponent_zero_and_incr_adds_one() {
    let mut f = Factor::new(big(7));
    assert_eq!((f.prime.clone(), f.exp), (big(7), 0));
    f.incr();
    f.incr();
    assert_eq!((f.prime.clone(), f.exp), (big(7), 2));
}

#[test]
fn trial_division_of_small_factors_leaves_one() {
    let n = big(360);
    let found = trial_division(&n, &GAPS);
    assert_eq!(pairs(&found), vec![(big(2), 3), (big(3), 2), (big(5), 1)]);
    assert_eq!(cofactor(&n, &found), big(1));
}

#[test]
fn trial_division_of_fifteen() {
    let n = big(15);
    let found = trial_division(&n, &GAPS);
    assert_eq!(pairs(&found), vec![(big(3), 1), (big(5), 1)]);
    assert_eq!(cofactor(&n, &found), big(1));
}

#[test]
fn trial_division_tries_as_many_odd_candidates_as_the_table_is_long() {
    // 2, then 3 and 5: the 7 that the second gap leads to is not tried.
    let found = trial_division(&big(2 * 3 * 5 * 7), &[1, 1]);
    assert_eq!(pairs(&found), vec![(big(2), 1), (big(3), 1), (big(5), 1)]);
    let found = trial_division(&big(2 * 3 * 5 * 7), &[]);
    assert_eq!(pairs(&found), vec![(big(2), 1)]);
}

#[test]
fn trial_division_leaves_large_primes() {
    let n = big(4 * 47 * 8051);
    let found = trial_division(&n, &GAPS);
    assert_eq!(pairs(&found), vec![(big(2), 2), (big(47), 1)]);
    assert_eq!(cofactor(&n, &found), big(8051));
    assert!(trial_division(&big(8051), &GAPS).is_empty());
    assert!(trial_division(&big(1), &GAPS).is_empty());
}

#[test]
fn power_in_counts_the_multiplicity() {
    assert_eq!(power_in(&big(1 << 40), big(2)).exp, 40);
    assert_eq!(power_in(&big(2 * 81 * 25), big(3)).exp, 4);
    assert_eq!(power_in(&big(2 * 81 * 25), big(7)).exp, 0);
    assert_eq!(power_in(&big(36), big(6)).prime, big(6));
    assert_eq!(power_in(&big(36), big(6)).exp, 2);
    assert_eq!(power_in(&big(8), big(8)).exp, 1);
}

#[test]
fn cofactor_divides_each_power_out_rounding_down() {
    let list = vec![Factor { prime: big(2), exp: 3 }, Factor { prime: big(5), exp: 1 }];
    assert_eq!(cofactor(&big(8 * 5 * 11), &list), big(11));
    assert_eq!(cofactor(&big(8), &list[..1]), big(1));
    assert_eq!(cofactor(&big(100), &list), big(2));
    assert_eq!(cofactor(&Mpz::from(-7i64), &list), Mpz::from(-1i64));
    assert_eq!(cofactor(&big(77), &[]), big(77));
}

#[test]
fn is_factorable_wants_a_positive_number() {
    assert!(is_factorable(&big(1)));
    assert!(is_factorable(&big(8051)));
    assert!(is_factorable(&Mpz::from_str_radix("26661657967981291178121484753806009059802561273146506955993517919025168634007436791415970468260073", 10).unwrap()));
    assert!(!is_factorable(&big(0)));
    assert!(!is_factorable(&Mpz::from(-15i64)));
}
