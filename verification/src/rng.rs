//! The simulation's only source of randomness.

use vstd::prelude::*;

verus! {

/// Uniformly random value in the half-open range `lo..hi`.
///
/// Relies on `rand::Rng::gen_range` over `rand::thread_rng()`: it returns a
/// value inside the given range and panics only on an empty range, which the
/// precondition rules out. Nothing more is assumed of the result: callers
/// must be correct for every value in the range.
#[verifier::external_body]
pub(crate) fn rand_range(lo: usize, hi: usize) -> (r: usize)
    requires
        lo < hi,
    ensures
        lo <= r < hi,
{
    rand::Rng::gen_range(&mut rand::thread_rng(), lo..hi)
}

} // verus!
