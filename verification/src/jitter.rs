//! The randomized jitter used when an item is deferred.
//!
//! A delay pushes an item later by its blended reschedule distance scaled
//! with a random factor drawn from [0.1, 1.0), so repeated deferrals do
//! not pile items onto the same virtual instant.  The factor is held in
//! per-mille steps to keep the arithmetic exact.

use vstd::prelude::*;

verus! {

/// Relies on rand::random: a fresh value from the thread-local generator.
/// Nothing can be promised of a random value.
pub assume_specification<T>[ rand::random::<T> ]() -> (r: T)
    where
        rand::distributions::Standard: rand::distributions::Distribution<T>,
;

/// One fresh jitter factor, in per-mille: a random value folded into
/// [100, 1000), realizing the factor range [0.1, 1.0).
pub fn jitter_permille() -> (r: u64)
    ensures
        100 <= r < 1000,
{
    let raw: u64 = rand::random::<u64>();
    100 + raw % 900
}

} // verus!
