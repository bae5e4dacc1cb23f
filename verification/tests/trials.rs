use ecm::curve::random_curve;
use ecm::point::Point;
use ecm::trial::{
    check_curve, ecm_trial, ecm_trial2, ecm_trial2_seeded, ecm_trial_seeded, find_divisor,
    greatest_power, stage1, stage2,
};
use gmp::mpz::Mpz;
use gmp::rand::RandState;

fn big(v: u64) -> Mpz {
    Mpz::from(v)
}

#[test]
fn find_divisor_wants_a_proper_divisor() {
    let n = big(8051);
    assert_eq!(find_divisor(&big(7636), &n), Some(big(83)));
    assert_eq!(find_divisor(&Mpz::from(-194i64), &n), Some(big(97)));
    assert_eq!(find_divisor(&big(0), &n), None);
    assert_eq!(find_divisor(&big(8051 * 3), &n), None);
    assert_eq!(find_divisor(&big(1519), &n), None);
}

#[test]
fn check_curve_finds_what_the_coefficient_shares_with_the_modulus() {
    let n = big(8051);
    assert_eq!(check_curve(&big(500), &n), Some(big(83)));
    assert_eq!(check_curve(&big(968), &n), Some(big(97)));
    assert_eq!(check_curve(&big(8049), &n), Some(big(8051)));
    assert_eq!(check_curve(&big(2), &n), Some(big(8051)));
    assert_eq!(check_curve(&big(1), &n), None);
    assert_eq!(check_curve(&big(4870), &n), None);
}

#[test]
fn greatest_power_stays_within_the_bound() {
    let cases = [(2, 100, 64), (3, 100, 81), (7, 100, 49), (97, 100, 97), (2, 2, 2), (5, 25, 25), (10, 1000, 1000)];
    for (l, bound, power) in cases {
        assert_eq!(greatest_power(&big(l), &big(bound)), big(power));
    }
}

#[test]
fn stage1_multiplies_by_every_prime_power_up_to_the_bound() {
    let p = Point { x: big(3), z: big(5) };
    let (q, l) = stage1(&p, &big(101), &big(7), &big(10));
    assert_eq!((q.x, q.z, l), (big(55), big(87), big(11)));
    let (q, l) = stage1(&p, &big(101), &big(7), &big(1));
    assert_eq!((q.x, q.z, l), (big(3), big(5), big(2)));
}

#[test]
fn stage2_goes_on_from_the_point_of_stage1() {
    let n = big(8051);
    let (a, p) = random_curve(&big(11), &n).unwrap();
    assert_eq!(a, big(985));
    let b = big(246);
    let (q, l) = stage1(&p, &n, &b, &big(10));
    assert_eq!((q.x.clone(), q.z.clone(), l.clone()), (big(5000), big(1519), big(11)));
    assert_eq!(stage2(&q, &l, &n, &b, &big(100)), Some(big(83)));
    assert_eq!(stage2(&q, &l, &n, &b, &big(10)), None);
}

#[test]
fn seeded_trials_find_what_the_seed_decides() {
    let n = big(8051);
    assert_eq!(ecm_trial_seeded(&big(8), &n, &big(10)), Some(big(83)));
    assert_eq!(ecm_trial_seeded(&big(32), &n, &big(10)), Some(big(97)));
    assert_eq!(ecm_trial_seeded(&big(11), &n, &big(10)), None);
    assert_eq!(ecm_trial2_seeded(&big(11), &n, &big(10), &big(100)), Some(big(83)));
    assert_eq!(ecm_trial2_seeded(&big(12), &n, &big(10), &big(100)), Some(big(97)));
    assert_eq!(ecm_trial2_seeded(&big(6), &n, &big(100), &big(1000)), None);
}

#[test]
fn seeded_trials_return_the_divisor_of_a_degenerate_curve() {
    let n = big(8051);
    assert_eq!(ecm_trial_seeded(&big(26), &n, &big(100)), Some(big(83)));
    assert_eq!(ecm_trial2_seeded(&big(34), &n, &big(100), &big(1000)), Some(big(97)));
    assert_eq!(ecm_trial2_seeded(&big(5), &n, &big(100), &big(1000)), Some(big(8051)));
}

#[test]
fn seeded_trials_find_nothing_where_the_inversion_fails() {
    let n = big(8051);
    assert_eq!(ecm_trial_seeded(&big(83), &n, &big(100)), None);
    assert_eq!(ecm_trial2_seeded(&big(97), &n, &big(100), &big(1000)), None);
}

#[test]
fn repeated_trials_split_8051() {
    let n = big(8051);
    let mut rng = RandState::new();
    rng.seed_ui(2024);
    let mut found = None;
    for _ in 0..10_000 {
        if let Some(g) = ecm_trial2(&mut rng, &n, &big(100), &big(1000)) {
            assert!(n.is_multiple_of(&g) && g > big(1));
            if g < n {
                found = Some(g);
                break;
            }
        }
    }
    let g = found.unwrap();
    assert!(g == big(83) || g == big(97));
}

#[test]
fn repeated_trials_of_the_first_stage_split_8051() {
    let n = big(8051);
    let mut rng = RandState::new();
    rng.seed_ui(7);
    let mut found = None;
    for _ in 0..10_000 {
        if let Some(g) = ecm_trial(&mut rng, &n, &big(10)) {
            if g < n {
                found = Some(g);
                break;
            }
        }
    }
    let g = found.unwrap();
    assert!(g == big(83) || g == big(97));
}
