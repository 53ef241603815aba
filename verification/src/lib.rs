//! Primality testing and integer factorisation over arbitrary-precision
//! naturals.
//!
//! The numeric workhorse is [`natural::Natural`], an unbounded unsigned
//! integer backed by `num_bigint`.  On top of it the crate offers modular
//! exponentiation, trial-division and Miller-Rabin primality tests, the AKS
//! deterministic test, and an incremental factorisation routine that grows a
//! caller-owned cache of small primes.

pub mod display;
pub mod factorisations;
pub mod groups_modulo_n;
pub mod logarithms;
pub mod natural;
pub mod presets;
pub mod primality;
pub mod prime_factors;
pub mod quadratic_sieve;
pub mod utils;

use vstd::prelude::*;

verus! {

/// Failure cases of the routines that reject bad inputs instead of looping
/// or panicking.
#[derive(Debug, Clone, Copy, PartialEq, Eq, Structural)]
pub enum NtError {
    /// The input lies outside the routine's domain (for example a zero
    /// modulus, or asking for the factors of a number below 2).
    InvalidInput,
    /// A bounded search (for the next prime, or for an AKS order
    /// parameter) ran out of candidates.
    SearchExhausted,
    /// Factorisation removed every cached prime from the number, yet the
    /// remaining cofactor was neither 1 nor accepted as a probable prime.
    UnresolvedResidue,
}

} // verus!
