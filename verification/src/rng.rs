use vstd::prelude::*;

verus! {

use crate::grid::COLORS_COUNT;

#[verifier::external_type_specification]
#[verifier::external_body]
pub struct ExStdRng(rand::rngs::StdRng);

/// Relies on rand::SeedableRng::seed_from_u64: builds a generator whose
/// stream is a function of the seed; nothing is assumed about the stream.
#[verifier::external_body]
pub(crate) fn rng_from_seed(seed: u64) -> rand::rngs::StdRng {
    <rand::rngs::StdRng as rand::SeedableRng>::seed_from_u64(seed)
}

/// Relies on rand::Rng::gen_range on the half-open range `0..COLORS_COUNT`:
/// the result lies in that range, and the range is non-empty, so the call
/// cannot panic. Nothing else is assumed of the drawn value: callers must
/// hold for every outcome.
#[verifier::external_body]
pub(crate) fn random_color(rng: &mut rand::rngs::StdRng) -> (c: i32)
    ensures
        0 <= c < COLORS_COUNT,
{
    rand::Rng::gen_range(rng, 0..COLORS_COUNT)
}

} // verus!
