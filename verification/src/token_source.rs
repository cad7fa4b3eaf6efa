//! The seeded generator that stands in for the model: one pseudo-random token at a time.
use rand::rngs::StdRng;
use rand::{Rng, SeedableRng};
use vstd::prelude::*;

verus! {

/// `rand`'s standard generator, carried as an opaque value.
#[verifier::external_type_specification]
#[verifier::external_body]
pub struct ExStdRng(StdRng);

/// What the generator still holds: the token that a draw below `bound` gives once draws below
/// the `earlier` bounds were made, in order.
pub uninterp spec fn upcoming_token(rng: StdRng, earlier: Seq<u32>, bound: u32) -> u32;

/// The token that a draw below `bound` gives from a generator freshly seeded with `seed` once
/// draws below the `earlier` bounds were made, in order.
pub uninterp spec fn seeded_token(seed: u64, earlier: Seq<u32>, bound: u32) -> u32;

/// Calls `StdRng::seed_from_u64`. The seed alone fixes the generator, and so every
/// token that it will ever give.
#[verifier::external_body]
pub(crate) fn seeded_rng(seed: u64) -> (rng: StdRng)
    ensures
        forall|earlier: Seq<u32>, bound: u32|
            #[trigger] upcoming_token(rng, earlier, bound) == seeded_token(seed, earlier, bound),
{
    StdRng::seed_from_u64(seed)
}

/// Calls `Rng::random_range` on `0..bound`, which panics on an empty range. The token is
/// the next that the generator holds for the bound, lies below it, and leaves the rest behind.
#[verifier::external_body]
pub(crate) fn draw_token(rng: &mut StdRng, bound: u32) -> (token: u32)
    requires
        bound > 0,
    ensures
        token < bound,
        token == upcoming_token(*old(rng), Seq::empty(), bound),
        forall|earlier: Seq<u32>, later: u32|
            #[trigger] upcoming_token(*final(rng), earlier, later) == upcoming_token(
                *old(rng),
                seq![bound] + earlier,
                later,
            ),
{
    rng.random_range(0..bound)
}

} // verus!
