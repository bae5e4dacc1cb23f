use ecm::curve::{random_curve, random_mpz, InversionFailure};
use gmp::mpz::Mpz;
use gmp::rand::RandState;

#[test]
fn random_curve_follows_the_parametrization() {
    let (a, p) = random_curve(&Mpz::from(6u64), &Mpz::from(8051u64)).unwrap();
    assert_eq!(a, Mpz::from(4870u64));
    assert_eq!(p.x, Mpz::from(5638u64));
    assert_eq!(p.z, Mpz::from(5773u64));
    let (a, p) = random_curve(&Mpz::from(7u64), &Mpz::from(8051u64)).unwrap();
    assert_eq!(a, Mpz::from(1422u64));
    assert_eq!(p.x, Mpz::from(4674u64));
    assert_eq!(p.z, Mpz::from(5850u64));
}

#[test]
fn random_curve_fails_where_the_denominator_has_no_inverse() {
    for sigma in [83u64, 97, 166, 194] {
        let r = random_curve(&Mpz::from(sigma), &Mpz::from(8051u64));
        assert!(matches!(r, Err(InversionFailure)));
    }
}

#[test]
fn random_mpz_stays_in_its_range() {
    let mut rng = RandState::new();
    rng.seed_ui(1);
    let n = Mpz::from(7u64);
    for _ in 0..20 {
        assert_eq!(random_mpz(&mut rng, &n), Mpz::from(5u64));
    }
    let n = Mpz::from(8051u64);
    let mut seen_other = false;
    let first = random_mpz(&mut rng, &n);
    for _ in 0..200 {
        let s = random_mpz(&mut rng, &n);
        assert!(Mpz::from(5u64) <= s && s < Mpz::from(8050u64));
        seen_other = seen_other || s != first;
    }
    assert!(seen_other);
}

#[test]
fn random_curve_modulo_one_is_all_zero() {
    let (a, p) = random_curve(&Mpz::from(9u64), &Mpz::from(1u64)).unwrap();
    assert_eq!((a, p.x, p.z), (Mpz::from(0u64), Mpz::from(0u64), Mpz::from(0u64)));
}

#[test]
fn random_curve_takes_any_seed() {
    // A seed below 5 or above the modulus is reduced like any other.
    let n = Mpz::from(8051u64);
    let (a, p) = random_curve(&Mpz::from(8051u64 + 6), &n).unwrap();
    assert_eq!((a, p.x, p.z), (Mpz::from(4870u64), Mpz::from(5638u64), Mpz::from(5773u64)));
    let (a, _) = random_curve(&Mpz::from(-6i64), &n).unwrap();
    assert!(Mpz::from(0u64) <= a && a < n);
}
