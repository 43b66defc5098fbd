//! The one source of randomness the randomized searches draw on: a uniform
//! index below a given bound.

use rand::RngExt;
use vstd::prelude::*;

verus! {

/// Relies on rand's `RngExt::random_range` over `0..n`: it returns a sample
/// from the given range, and panics only on an empty range, which `n > 0`
/// rules out. Nothing more is assumed of the sample: callers must be correct
/// for every index below `n`.
#[verifier::external_body]
pub(crate) fn rand_index(n: usize) -> (r: usize)
    requires
        n > 0,
    ensures
        r < n,
{
    rand::rng().random_range(0..n)
}

} // verus!
