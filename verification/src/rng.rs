//! Seeded randomness for the generator. The cipher-based generator state is
//! opaque; everything the solver proves holds for every value the stream
//! yields, while a fixed seed still reproduces a fixed world.

use vstd::prelude::*;

verus! {

#[verifier::external_type_specification]
#[verifier::external_body]
pub struct ExChaCha8Rng(rand_chacha::ChaCha8Rng);

/// Relies on rand_core::SeedableRng::seed_from_u64 for rand_chacha::ChaCha8Rng:
/// expands the seed into a cipher key deterministically and never panics.
#[verifier::external_body]
pub(crate) fn rng_from_seed(seed: u64) -> rand_chacha::ChaCha8Rng {
    <rand_chacha::ChaCha8Rng as rand::SeedableRng>::seed_from_u64(seed)
}

/// Relies on rand_core::RngCore::next_u64 for rand_chacha::ChaCha8Rng: advances
/// the cipher stream and returns its next word; it never panics, and nothing
/// more is assumed of the value.
#[verifier::external_body]
pub(crate) fn rng_next(rng: &mut rand_chacha::ChaCha8Rng) -> u64 {
    <rand_chacha::ChaCha8Rng as rand::RngCore>::next_u64(rng)
}

/// Draws an index below `n` from the stream.
pub(crate) fn pick_below(rng: &mut rand_chacha::ChaCha8Rng, n: usize) -> (r: usize)
    requires
        n >= 1,
    ensures
        r < n,
{
    let raw = rng_next(rng);
    let m = raw % (n as u64);
    assert(m < n as u64);
    m as usize
}

} // verus!
