//! The engine's source of randomness.
//!
//! Rollout move sampling draws from the process-local uniform generator
//! of the `rand` crate. Nothing can be promised of a random value, so
//! the trusted specification below carries no postcondition; everything
//! the engine needs — a draw strictly below a bound — is computed and
//! verified on top of it.

use vstd::prelude::*;

verus! {

/// Relies on `rand::random`: one value drawn from the process-local
/// uniform generator. The result depends on the generator's state, so
/// nothing is stated about it.
pub assume_specification<T>[ rand::random::<T> ]() -> (r: T)
    where
        rand::distributions::Standard: rand::distributions::Distribution<T>,
;

/// A random draw in `[0, n)`.
pub fn random_below(n: u64) -> (r: u64)
    requires
        n >= 1,
    ensures
        r < n,
{
    let x: u64 = rand::random::<u64>();
    x % n
}

} // verus!
