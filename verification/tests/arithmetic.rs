use ecm::point::{ladder, x_add, x_dbl, Point};
use gmp::mpz::Mpz;

fn big(v: i64) -> Mpz {
    Mpz::from(v)
}

fn point(x: i64, z: i64) -> Point {
    Point { x: big(x), z: big(z) }
}

fn same(p: &Point, x: i64, z: i64) -> bool {
    p.x == big(x) && p.z == big(z)
}

fn proportional(p: &Point, q: &Point, n: &Mpz) -> bool {
    (&p.x * &q.z - &p.z * &q.x).modulus(n) == big(0)
}

#[test]
fn zero_is_the_point_at_infinity() {
    assert!(same(&Point::zero(), 1, 0));
}

#[test]
fn x_add_gives_the_reduced_sum() {
    let r = x_add(&point(3, 5), &point(7, 11), &point(13, 17), &big(101));
    assert!(same(&r, 30, 6));
}

#[test]
fn x_add_differs_from_its_first_argument() {
    let p = point(3, 5);
    let r = x_add(&p, &point(7, 11), &point(13, 17), &big(101));
    assert!(!(r.x == p.x && r.z == p.z));
}

#[test]
fn x_dbl_gives_the_reduced_double() {
    assert!(same(&x_dbl(&point(3, 5), &big(101), &big(7)), 54, 89));
}

#[test]
fn x_dbl_reduces_negative_values() {
    assert!(same(&x_dbl(&point(-3, 5), &big(101), &big(-7)), 54, 48));
}

#[test]
fn ladder_of_zero_is_the_identity() {
    assert!(same(&ladder(&big(0), &point(3, 5), &big(101), &big(7)), 1, 0));
}

#[test]
fn ladder_of_zero_is_the_identity_modulo_one() {
    assert!(same(&ladder(&big(0), &point(3, 5), &big(1), &big(7)), 1, 0));
}

#[test]
fn ladder_gives_the_multiples() {
    let expected = [(1, 79, 98), (2, 92, 2), (3, 52, 51), (5, 64, 69), (6, 4, 66), (10, 47, 67), (77, 21, 60)];
    for (m, x, z) in expected {
        let r = ladder(&big(m), &point(3, 5), &big(101), &big(7));
        assert!(same(&r, x, z), "multiple {}", m);
    }
}

#[test]
fn ladder_of_two_is_the_double() {
    let cases = [(3, 5, 7, 101), (2, 9, 4, 8051), (10, 1, 0, 97), (6, 7, 33, 1000003)];
    for (x, z, a, n) in cases {
        let p = point(x, z);
        let twice = ladder(&big(2), &p, &big(n), &big(a));
        let double = x_dbl(&p, &big(n), &big(a));
        assert!(proportional(&twice, &double, &big(n)));
    }
}

#[test]
fn ladder_composes_as_the_product_of_scalars() {
    // The curve y^2 = x^3 + 6 x^2 + x modulo 101, so the ladder works
    // with (6 + 2) / 4 = 2, and the point of x = 2 on it.
    let n = big(101);
    let a = big(2);
    let p = point(2, 1);
    for k1 in 1..8 {
        for k2 in 1..8 {
            let first = ladder(&big(k1), &p, &n, &a);
            let composed = ladder(&big(k2), &first, &n, &a);
            let direct = ladder(&big(k1 * k2), &p, &n, &a);
            assert!(proportional(&composed, &direct, &n), "{} then {}", k1, k2);
        }
    }
}
