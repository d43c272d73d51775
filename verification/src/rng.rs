//! The seeded generator that picks among runnable participants.

use vstd::prelude::*;

verus! {

/// The generator of the `rand` crate. Its state is not modelled.
#[verifier::external_type_specification]
#[verifier::external_body]
pub struct ExStdRng(rand::StdRng);

/// `StdRng::from_seed` on a seed of one word. Nothing is claimed of the
/// generator it returns.
#[verifier::external_body]
pub(crate) fn seeded(seed: usize) -> rand::StdRng {
    rand::SeedableRng::from_seed(&[seed][..])
}

/// `Rng::gen_range(0, bound)`: a number below `bound`. The call panics on an
/// empty range, which `requires` leaves out. Nothing is claimed of which
/// number below `bound` comes back.
#[verifier::external_body]
pub(crate) fn draw_below(rng: &mut rand::StdRng, bound: usize) -> (drawn: usize)
    requires
        bound > 0,
    ensures
        drawn < bound,
{
    rand::Rng::gen_range(rng, 0usize, bound)
}

} // verus!
