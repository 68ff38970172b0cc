//! The seeded random generator that proposes mine layouts.
use rand::rngs::StdRng;
use rand::{RngExt, SeedableRng};
use vstd::prelude::*;

verus! {

/// `rand::rngs::StdRng`, carried through the game as an opaque value.
#[verifier::external_type_specification]
#[verifier::external_body]
pub struct ExStdRng(StdRng);

/// The generator `SeedableRng::seed_from_u64` builds from `seed`: its state is
/// a fixed expansion of the seed and nothing else.
pub uninterp spec fn seeded_stream(seed: u64) -> StdRng;

/// Calls `SeedableRng::seed_from_u64`: the generator whose whole stream is fixed by
/// `seed`, the same one for the same seed (`seeded_stream(seed)`). What that state
/// holds, and which numbers it yields, is left unsaid.
#[verifier::external_body]
pub(crate) fn seeded_rng(seed: u64) -> (r: StdRng)
    ensures
        r == seeded_stream(seed),
{
    StdRng::seed_from_u64(seed)
}

/// Calls `RngExt::random_range(rng, 0..bound)`: some value in `0..bound` (the range is
/// non-empty, so the call does not panic), advancing the generator. Which value comes
/// out depends on the generator's state and is left unsaid.
#[verifier::external_body]
pub(crate) fn random_below(rng: &mut StdRng, bound: usize) -> (r: usize)
    requires
        bound > 0,
    ensures
        r < bound,
{
    rng.random_range(0..bound)
}

} // verus!
