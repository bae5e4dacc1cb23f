//! Integer factorization by trial division and Lenstra's elliptic-curve
//! method, on GMP's integers.
//!
//! A number is first divided by the primes of a table. What is left is
//! attacked by trials of the elliptic-curve method, each on a curve drawn
//! at random, until it is 1 or passes a primality test. Every function
//! states in its contract what it computes, over the mathematical
//! integers that the `Mpz` values hold.

pub mod bigint;
pub mod curve;
pub mod factor;
pub mod factorization;
pub mod numbers;
pub mod point;
pub mod table;
pub mod text;
pub mod trial;
pub mod unique;

pub use crate::curve::{random_curve, random_mpz, InversionFailure};
pub use crate::factor::{cofactor, is_factorable, power_in, trial_division, Factor};
pub use crate::factorization::{factorization, Factorization};
pub use crate::point::{ladder, x_add, x_dbl, Point};
pub use crate::text::print_factors;
pub use crate::trial::{ecm_trial, ecm_trial2, ecm_trial2_seeded, ecm_trial_seeded};
