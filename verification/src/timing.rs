//! The pluggable duration source for the two sleeping phases: every phase
//! lasts an arbitrary number of time units drawn from `[0, dmax)`. Nothing
//! in the design depends on the distribution, only on the bound.

use vstd::prelude::*;

verus! {

/// Relies on rand::random: an arbitrary value of the drawn type; nothing
/// is assumed of which value comes back.
pub assume_specification<T>[ rand::random::<T> ]() -> (r: T)
    where
        rand::distributions::Standard: rand::distributions::Distribution<T>,
;

/// Draws one phase duration: some number of time units in `[0, dmax)`,
/// whatever the random source returned.
pub fn random_duration(dmax: u64) -> (d: u64)
    requires
        dmax > 0,
    ensures
        d < dmax,
{
    let raw: u64 = rand::random::<u64>();
    raw % dmax
}

} // verus!
