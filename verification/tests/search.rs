use ecm::bigint::Primality;
use ecm::factor::Factor;
use ecm::factorization::{factorization, Factorization, ROUNDS};
use gmp::mpz::{Mpz, ProbabPrimeResult};
use gmp::rand::RandState;

// Half the gaps between the odd primes from 3 to 47; the last entry leads
// on to 53, which is not tried.
const GAPS: [u32; 14] = [1, 1, 2, 1, 2, 1, 2, 3, 1, 3, 2, 1, 2, 3];

fn big(v: u64) -> Mpz {
    Mpz::from(v)
}

fn pairs(factors: &[Factor]) -> Vec<(Mpz, u32)> {
    factors.iter().map(|f| (f.prime.clone(), f.exp)).collect()
}

fn product(factors: &[Factor]) -> Mpz {
    factors.iter().fold(big(1), |acc, f| acc * f.prime.pow(f.exp))
}

fn generator(seed: u64) -> RandState {
    let mut rng = RandState::new();
    rng.seed_ui(seed);
    rng
}

fn run(n: &Mpz, seed: u64) -> Factorization {
    factorization(n, &big(100), &big(1000), &GAPS, &mut generator(seed), 100_000)
}

#[test]
fn rounds_of_the_certifying_test() {
    assert_eq!(ROUNDS, 50);
}

#[test]
fn primality_has_three_verdicts() {
    assert_ne!(Primality::NotPrime, Primality::ProbablyPrime);
    assert_ne!(Primality::ProbablyPrime, Primality::Prime);
}

#[test]
fn fifteen_needs_no_trial() {
    let r = factorization(&big(15), &big(100), &big(1000), &GAPS, &mut generator(1), 0);
    assert_eq!(pairs(&r.factors), vec![(big(3), 1), (big(5), 1)]);
    assert_eq!(r.work, big(1));
    assert!(r.is_complete());
}

#[test]
fn a_prime_cofactor_is_certified_without_a_trial() {
    let r = factorization(&big(8 * 9 * 1009), &big(100), &big(1000), &GAPS, &mut generator(1), 0);
    assert_eq!(pairs(&r.factors), vec![(big(2), 3), (big(3), 2), (big(1009), 1)]);
    assert!(r.is_complete());
    let r = factorization(&big(1), &big(100), &big(1000), &GAPS, &mut generator(1), 0);
    assert!(r.factors.is_empty() && r.is_complete());
}

#[test]
fn a_composite_cofactor_is_left_when_no_trial_is_allowed() {
    let r = factorization(&big(2 * 8051), &big(100), &big(1000), &GAPS, &mut generator(1), 0);
    assert_eq!(pairs(&r.factors), vec![(big(2), 1)]);
    assert_eq!(r.work, big(8051));
    assert!(!r.is_complete());
}

#[test]
fn factorization_of_8051() {
    let r = run(&big(8051), 12345);
    assert!(r.is_complete());
    let mut found = pairs(&r.factors);
    found.sort();
    assert_eq!(found, vec![(big(83), 1), (big(97), 1)]);
}

#[test]
fn factors_multiply_to_the_number() {
    for (i, n) in [2u64 * 3 * 8051, 83 * 83 * 97, 101 * 103 * 107, 360, 1_000_003 * 999_983, 4 * 49 * 10_403].into_iter().enumerate() {
        let r = run(&big(n), i as u64);
        assert!(r.is_complete(), "{}", n);
        assert_eq!(product(&r.factors), big(n));
        assert!(r.factors.iter().all(|f| f.exp >= 1 && f.prime > big(1)));
    }
}

#[test]
fn the_last_factor_passes_the_primality_test() {
    let r = run(&big(2 * 3 * 8051), 99);
    let last = r.factors.last().unwrap();
    assert_eq!(last.exp, 1);
    assert!(last.prime.probab_prime(ROUNDS) != ProbabPrimeResult::NotPrime);
}

#[test]
fn fresh_randomness_gives_the_same_prime_factors() {
    // A divisor that a trial finds is recorded as it is, so two runs need
    // agree only where each recorded one is a prime.
    let n = big(4 * 83 * 83 * 97);
    let expected = vec![(big(2), 2), (big(83), 2), (big(97), 1)];
    let mut agreeing = 0;
    for seed in 1..40 {
        let r = run(&n, seed);
        assert!(r.is_complete());
        assert_eq!(product(&r.factors), n);
        if r.factors.iter().all(|f| f.prime.probab_prime(ROUNDS) != ProbabPrimeResult::NotPrime) {
            let mut found = pairs(&r.factors);
            found.sort();
            assert_eq!(found, expected);
            agreeing += 1;
        }
    }
    assert!(agreeing >= 10);
}

#[test]
fn a_composite_divisor_is_recorded_as_it_is() {
    let mut s = Factorization::new(&big(83 * 83 * 97), &GAPS);
    s.record(big(83 * 83));
    assert_eq!(pairs(&s.factors), vec![(big(6889), 1)]);
    assert_eq!(s.work, big(97));
}

#[test]
fn the_search_goes_step_by_step() {
    let mut s = Factorization::new(&big(4 * 47 * 8051), &GAPS);
    assert_eq!(pairs(&s.factors), vec![(big(2), 2), (big(47), 1)]);
    assert_eq!(s.work, big(8051));
    assert!(!s.certify());
    assert_eq!(s.factors.len(), 2);
    s.record(big(5));
    assert_eq!((s.factors.len(), s.work.clone()), (2, big(8051)));
    s.record(big(83));
    assert_eq!(pairs(&s.factors), vec![(big(2), 2), (big(47), 1), (big(83), 1)]);
    assert_eq!(s.work, big(97));
    assert!(s.certify());
    assert_eq!(pairs(&s.factors), vec![(big(2), 2), (big(47), 1), (big(83), 1), (big(97), 1)]);
    assert_eq!(s.work, big(1));
    assert!(s.certify() && s.factors.len() == 4);
}

#[test]
fn record_divides_the_full_power_out() {
    let mut s = Factorization::new(&big(83 * 83 * 83 * 97), &GAPS);
    s.record(big(83));
    assert_eq!(pairs(&s.factors), vec![(big(83), 3)]);
    assert_eq!(s.work, big(97));
}

#[test]
fn attempt_keeps_the_number() {
    let n = big(8051);
    let mut s = Factorization::new(&n, &GAPS);
    let mut rng = generator(5);
    let mut found = false;
    for _ in 0..10_000 {
        if s.work <= big(6) {
            break;
        }
        let before = s.factors.len();
        found = s.attempt(&mut rng, &big(100), &big(1000));
        assert_eq!(found, s.factors.len() > before);
        assert_eq!(product(&s.factors) * &s.work, n);
        if found {
            break;
        }
    }
    assert!(found);
}
