use vstd::prelude::*;

verus! {

#[verifier::external_type_specification]
#[verifier::external_body]
pub struct ExStdRng(rand::rngs::StdRng);

/// Relies on rand's `StdRng::seed_from_u64`: builds the standard pseudo
/// random generator from a 64-bit seed.  Nothing is assumed about the
/// values it will produce.
#[verifier::external_body]
pub(crate) fn rng_from_seed(seed: u64) -> rand::rngs::StdRng {
    <rand::rngs::StdRng as rand::SeedableRng>::seed_from_u64(seed)
}

/// Relies on rand's `Rng::gen_range` on the half-open range `0..bound`,
/// which returns a value below `bound` and panics only on an empty range.
#[verifier::external_body]
pub(crate) fn rand_below(rng: &mut rand::rngs::StdRng, bound: u64) -> (r: u64)
    requires
        bound > 0,
    ensures
        r < bound,
{
    rand::Rng::gen_range(rng, 0..bound)
}

} // verus!
