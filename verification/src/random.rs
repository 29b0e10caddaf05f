//! The source of randomness: the `rand` crate's standard generator, and the
//! two things the game asks of it. These are the only items of the library
//! that Verus takes on trust.

use rand::rngs::StdRng;
use rand::seq::SliceRandom;
use rand::Rng;
use vstd::prelude::*;

verus! {

/// The `rand` crate's standard generator, `rand::rngs::StdRng`. Verus sees
/// nothing inside it.
#[verifier::external_type_specification]
#[verifier::external_body]
pub struct ExStdRng(StdRng);

/// Draws a number below `bound` with `rand::Rng::gen_range(0, bound)`.
///
/// Trusted: the number drawn is below `bound`. `gen_range` panics where the
/// range is empty, so `bound` must be positive. Nothing is claimed of which
/// number is drawn.
#[verifier::external_body]
pub(crate) fn draw_below(rng: &mut StdRng, bound: usize) -> (drawn: usize)
    requires
        bound > 0,
    ensures
        drawn < bound,
{
    rng.gen_range(0, bound)
}

/// Shuffles `letters` in place with `rand::seq::SliceRandom::shuffle`.
///
/// Trusted: the shuffle only swaps entries, so afterwards the vector holds the
/// same entries, each as often as before. Nothing is claimed of their order.
#[verifier::external_body]
pub(crate) fn shuffle(letters: &mut Vec<u8>, rng: &mut StdRng)
    ensures
        final(letters)@.to_multiset() == old(letters)@.to_multiset(),
{
    letters.shuffle(rng)
}

} // verus!
