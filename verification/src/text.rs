//! Numbers, points and factor lists as text.

use crate::factor::{views, Factor, FactorView};
use crate::point::{Point, ProjPoint};
use gmp::mpz::Mpz;
use vstd::prelude::*;
use vstd::string::*;

verus! {

/// The character of a decimal digit.
pub open spec fn digit(d: int) -> char {
    if d == 0 {
        '0'
    } else if d == 1 {
        '1'
    } else if d == 2 {
        '2'
    } else if d == 3 {
        '3'
    } else if d == 4 {
        '4'
    } else if d == 5 {
        '5'
    } else if d == 6 {
        '6'
    } else if d == 7 {
        '7'
    } else if d == 8 {
        '8'
    } else {
        '9'
    }
}

/// The decimal digits of a natural number, without leading zeros.
pub open spec fn digits(n: nat) -> Seq<char>
    decreases n,
{
    if n < 10 {
        seq![digit(n as int)]
    } else {
        digits(n / 10).push(digit((n % 10) as int))
    }
}

/// An integer in decimal notation, with a minus sign before a negative
/// one.
pub open spec fn decimal(n: int) -> Seq<char> {
    if n < 0 {
        seq!['-'] + digits((-n) as nat)
    } else {
        digits(n as nat)
    }
}

/// A point as text: its coordinates in brackets, with a colon between.
pub open spec fn point_text(p: ProjPoint) -> Seq<char> {
    "("@ + decimal(p.x) + " : "@ + decimal(p.z) + ")"@
}

/// A factor as text: the prime, a caret, the exponent.
pub open spec fn factor_text(f: FactorView) -> Seq<char> {
    decimal(f.prime) + "^"@ + decimal(f.exp as int)
}

/// The factors of a list as text, with ` * ` between each two.
pub open spec fn product_text(s: Seq<FactorView>) -> Seq<char>
    decreases s.len(),
{
    if s.len() == 0 {
        Seq::empty()
    } else if s.len() == 1 {
        factor_text(s[0])
    } else {
        product_text(s.drop_last()) + " * "@ + factor_text(s.last())
    }
}

/// A list of factors as a line of text: the product, or the word `empty`,
/// without a line end, for a list that holds nothing.
pub open spec fn factors_text(s: Seq<FactorView>) -> Seq<char> {
    if s.len() == 0 {
        "empty"@
    } else {
        product_text(s) + "\n"@
    }
}

impl Point {
    /// The point as text.
    pub fn to_text(&self) -> (r: String)
        ensures
            r@ == point_text(self@),
    {
        let mut out = String::from_str("(");
        out.append(self.x.to_str_radix(10).as_str());
        out.append(" : ");
        out.append(self.z.to_str_radix(10).as_str());
        out.append(")");
        out
    }
}

impl Factor {
    /// The factor as text.
    pub fn to_text(&self) -> (r: String)
        ensures
            r@ == factor_text(self@),
    {
        let mut out = self.prime.to_str_radix(10);
        out.append("^");
        out.append(Mpz::from(self.exp as u64).to_str_radix(10).as_str());
        out
    }
}

/// A list of factors as the line of text that is printed for it.
pub fn print_factors(factors: &[Factor]) -> (r: String)
    ensures
        r@ == factors_text(views(factors@)),
{
    if factors.len() == 0 {
        return String::from_str("empty");
    }
    let ghost all = views(factors@);
    let mut out = factors[0].to_text();
    let mut i: usize = 1;
    proof {
        assert(all.take(1)[0] == factors@[0]@);
    }
    while i < factors.len()
        invariant
            1 <= i <= factors.len(),
            all == views(factors@),
            out@ == product_text(all.take(i as int)),
        decreases factors.len() - i,
    {
        let t = factors[i].to_text();
        proof {
            let next = all.take(i + 1);
            assert(next.drop_last() =~= all.take(i as int));
            assert(next.last() == factors@[i as int]@);
        }
        out.append(" * ");
        out.append(t.as_str());
        i = i + 1;
    }
    proof {
        assert(all.take(i as int) =~= all);
    }
    out.append("\n");
    out
}

} // verus!
