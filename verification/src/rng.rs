//! An explicit, seedable random source.
//!
//! Randomness is the one cross-cutting dependency of the crate, so it is
//! injected explicitly: every sampling function takes a `rand::rngs::StdRng`
//! handed in by the caller, which makes runs replayable from a seed.

use vstd::prelude::*;
use rand::Rng;

verus! {

#[verifier::external_type_specification]
#[verifier::external_body]
pub struct ExStdRng(rand::rngs::StdRng);

/// Relies on rand's `Rng::gen_range` over the half-open range `0 .. bound`:
/// every draw lies strictly below `bound`, and the range is non-empty, so
/// the call does not panic. Nothing more is assumed of a random draw.
#[verifier::external_body]
pub(crate) fn rng_below(rng: &mut rand::rngs::StdRng, bound: u64) -> (r: u64)
    requires
        bound >= 1,
    ensures
        r < bound,
{
    rng.gen_range(0..bound)
}

} // verus!
