use ecm::factor::Factor;
use ecm::point::Point;
use ecm::text::print_factors;
use gmp::mpz::Mpz;

fn factor(prime: i64, exp: u32) -> Factor {
    Factor { prime: Mpz::from(prime), exp }
}

#[test]
fn an_empty_list_prints_as_a_word() {
    assert_eq!(print_factors(&[]), "empty");
}

#[test]
fn one_factor_prints_alone() {
    assert_eq!(print_factors(&[factor(97, 1)]), "97^1\n");
}

#[test]
fn factors_print_as_a_product() {
    let list = [factor(2, 3), factor(3, 2), factor(5, 1), factor(1009, 12)];
    assert_eq!(print_factors(&list), "2^3 * 3^2 * 5^1 * 1009^12\n");
}

#[test]
fn a_factor_prints_with_a_caret() {
    assert_eq!(factor(83, 0).to_text(), "83^0");
    assert_eq!(factor(-7, 4294967295).to_text(), "-7^4294967295");
    let large = Factor { prime: Mpz::from_str_radix("1841831424953158080168", 10).unwrap(), exp: 10 };
    assert_eq!(large.to_text(), "1841831424953158080168^10");
}

#[test]
fn a_point_prints_in_brackets() {
    assert_eq!(Point::zero().to_text(), "(1 : 0)");
    let p = Point { x: Mpz::from(-12i64), z: Mpz::from(3400i64) };
    assert_eq!(p.to_text(), "(-12 : 3400)");
}
