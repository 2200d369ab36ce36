//! The random source of the sampler.

use rand::rngs::StdRng;
use rand::Rng;
use vstd::prelude::*;

verus! {

/// The generator type `rand::rngs::StdRng`. What it holds is not visible to
/// the verifier.
#[verifier::external_type_specification]
#[verifier::external_body]
pub struct ExStdRng(rand::rngs::StdRng);

/// Draws a number uniformly from `0..bound` with `Rng::gen_range` of the
/// `rand` crate. Not verified: the contract claims only that the number lies
/// below `bound`, and leaves out the empty range, on which `gen_range`
/// panics.
#[verifier::external_body]
pub(crate) fn draw_below(rng: &mut StdRng, bound: u16) -> (value: u16)
    requires
        bound > 0,
    ensures
        value < bound,
{
    rng.gen_range(0..bound)
}

} // verus!
