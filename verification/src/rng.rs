use vstd::prelude::*;

use rand::Rng;
use rand::SeedableRng;

verus! {

/// The board-owned random source, `rand`'s standard generator, declared
/// opaque: nothing is known of a value of it.
#[verifier::external_type_specification]
#[verifier::external_body]
pub struct ExStdRng(rand::rngs::StdRng);

/// Relies on rand_core's SeedableRng::seed_from_u64: builds a generator
/// whose draws are a fixed function of the seed. Nothing is claimed of the
/// returned value.
#[verifier::external_body]
pub(crate) fn seeded_rng(seed: u64) -> rand::rngs::StdRng {
    rand::rngs::StdRng::seed_from_u64(seed)
}

/// Relies on rand_core's SeedableRng::from_entropy: builds a generator
/// seeded by the operating system. Nothing is claimed of the returned value.
#[verifier::external_body]
pub(crate) fn fresh_rng() -> rand::rngs::StdRng {
    rand::rngs::StdRng::from_entropy()
}

/// Relies on rand's Rng::gen_range over the range `0..n`: the draw lies
/// below `n`. `gen_range` panics on an empty range, so `n > 0` is required.
/// Which value comes back depends on the generator's state, so nothing more
/// is claimed of it.
#[verifier::external_body]
pub(crate) fn rng_below(rng: &mut rand::rngs::StdRng, n: u64) -> (r: u64)
    requires
        n > 0,
    ensures
        r < n,
{
    rng.gen_range(0..n)
}

} // verus!
