//! Primality sweeps over bounded ranges of odd candidates.
//!
//! A [`PrimeCalculator`] decides, for every odd number of a range, whether it
//! is prime, by trial division against the ascending list of the primes it has
//! confirmed so far, and keeps one [`types::PrimeResult`] per decision.

pub mod clock;
pub mod primality;
pub mod prime_calculator;
pub mod result_set;
pub mod types;

pub use prime_calculator::PrimeCalculator;
