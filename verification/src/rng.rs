//! Deterministic seed-driven randomness for ship placement.
//!
//! Placement draws come from a ChaCha20 stream cipher generator. ChaCha
//! output is a pure function of its seed, and `gen_range` consumes the
//! stream deterministically, so each value drawn is a mathematical function
//! of the seed together with the sequence of draws made before it. The
//! abstract state of a generator is modelled by two names: its seed, and the
//! trace of `(lo, hi)` ranges already drawn from it.

use vstd::prelude::*;

verus! {

#[verifier::external_type_specification]
#[verifier::external_body]
pub struct ExChaCha20Rng(rand_chacha::ChaCha20Rng);

/// The seed a generator was created from.
pub uninterp spec fn rng_seed(rng: rand_chacha::ChaCha20Rng) -> u64;

/// The ranges drawn from a generator so far, oldest first.
pub uninterp spec fn rng_trace(rng: rand_chacha::ChaCha20Rng) -> Seq<(u8, u8)>;

/// The value that a ChaCha20 generator seeded with `seed`, after performing
/// the draws recorded in `trace`, yields for a draw in `[lo, hi)`.
pub uninterp spec fn chacha_draw(seed: u64, trace: Seq<(u8, u8)>, lo: u8, hi: u8) -> u8;

/// Relies on `rand_core::SeedableRng::seed_from_u64`, whose documentation
/// promises a reproducible generator for a given seed on all runs, library
/// versions and architectures.
#[verifier::external_body]
pub fn rng_new(seed: u64) -> (rng: rand_chacha::ChaCha20Rng)
    ensures
        rng_seed(rng) == seed,
        rng_trace(rng) == Seq::<(u8, u8)>::empty(),
{
    <rand_chacha::ChaCha20Rng as rand::SeedableRng>::seed_from_u64(seed)
}

/// Relies on `rand::Rng::gen_range` on a ChaCha20 generator: the result is
/// uniform in `[lo, hi)` (so in particular inside that range), it panics
/// only on an empty range, and it is a deterministic function of the seed
/// and of the draws made before this one.
#[verifier::external_body]
pub fn rng_draw(rng: &mut rand_chacha::ChaCha20Rng, lo: u8, hi: u8) -> (r: u8)
    requires
        lo < hi,
    ensures
        rng_seed(*final(rng)) == rng_seed(*old(rng)),
        rng_trace(*final(rng)) == rng_trace(*old(rng)).push((lo, hi)),
        r == chacha_draw(rng_seed(*old(rng)), rng_trace(*old(rng)), lo, hi),
        lo <= r < hi,
{
    <rand_chacha::ChaCha20Rng as rand::Rng>::gen_range(rng, lo..hi)
}

} // verus!
