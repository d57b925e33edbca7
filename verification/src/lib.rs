use vstd::prelude::*;

pub mod cli;
pub mod ordered;
pub mod primes;
pub mod divisors;
pub mod subset_sums;
pub mod certificate;
pub mod text;
pub mod bq;
pub mod window;
pub mod seed;
pub mod bridge;
pub mod representation;
pub mod classification;

verus! {
}
