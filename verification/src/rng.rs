//! The library's source of randomness: rand's standard generator, declared
//! for the verifier, and the one trusted draw the search makes from it.

use vstd::prelude::*;

verus! {

#[verifier::external_type_specification]
#[verifier::external_body]
pub struct ExStdRng(rand::rngs::StdRng);

/// Relies on rand's `Rng::gen_range` on the range `0..n`: it returns a
/// uniformly drawn value of that range, and panics only when the range is
/// empty. Nothing more is assumed of the draw than its bound.
#[verifier::external_body]
pub(crate) fn rand_below(rng: &mut rand::rngs::StdRng, n: usize) -> (r: usize)
    requires
        n > 0,
    ensures
        r < n,
{
    rand::Rng::gen_range(rng, 0..n)
}

} // verus!
