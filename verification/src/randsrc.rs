//! Trusted boundary to the random number generators and the clock. Each
//! wrapper names the outside function it relies on; its contract states
//! only what holds of every outcome of that call.

use vstd::prelude::*;
use crate::game::Direction;
use rand::Rng;
use rand::SeedableRng;
use rand::seq::SliceRandom;

verus! {

#[verifier::external_type_specification]
#[verifier::external_body]
/// The fast, non-cryptographic generator rollouts and tree growth draw
/// from.
pub struct ExSmallRng(rand::rngs::SmallRng);

#[verifier::external_type_specification]
#[verifier::external_body]
/// The explicitly seeded generator real-game spawns draw from, so games
/// replay deterministically from a fixed seed.
pub struct ExRandom(seeded_random::Random);

#[verifier::external_type_specification]
#[verifier::external_body]
/// A point in time, for the cooperative time budget of tree growth.
pub struct ExInstant(std::time::Instant);

/// Relies on rand's `SmallRng::from_rng` seeded from `rand::rng()`: a
/// fresh locally-seeded generator. Nothing is promised of its stream.
#[verifier::external_body]
pub fn rng_from_entropy() -> rand::rngs::SmallRng {
    rand::rngs::SmallRng::from_rng(&mut rand::rng())
}

/// Relies on rand's `Rng::random_range` over `0..n`: a value uniform in
/// that range. It panics on an empty range, so `n` must be positive; every
/// outcome lies below `n`.
#[verifier::external_body]
pub fn rand_below(rng: &mut rand::rngs::SmallRng, n: u32) -> (r: u32)
    requires
        n >= 1,
    ensures
        r < n,
{
    rng.random_range(0..n)
}

/// Relies on rand's `SliceRandom::shuffle`: a permutation in place, so the
/// multiset of elements and the length are unchanged.
#[verifier::external_body]
pub fn shuffle_directions(rng: &mut rand::rngs::SmallRng, v: &mut Vec<Direction>)
    ensures
        final(v)@.len() == old(v)@.len(),
        final(v)@.to_multiset() == old(v)@.to_multiset(),
{
    v.shuffle(rng)
}

/// Relies on rand's `SliceRandom::shuffle`: a permutation in place, so the
/// multiset of elements and the length are unchanged.
#[verifier::external_body]
pub fn shuffle_cells(rng: &mut rand::rngs::SmallRng, v: &mut Vec<(usize, usize)>)
    ensures
        final(v)@.len() == old(v)@.len(),
        final(v)@.to_multiset() == old(v)@.to_multiset(),
{
    v.shuffle(rng)
}

/// Relies on seeded_random's `Random::from_seed` over `Seed::unsafe_new`:
/// a generator whose stream is a function of the seed, so real games
/// replay deterministically.
#[verifier::external_body]
pub fn random_from_seed(seed: u64) -> seeded_random::Random {
    seeded_random::Random::from_seed(seeded_random::Seed::unsafe_new(seed))
}

/// Relies on seeded_random's `Random::range`, which delegates to rand's
/// `gen_range` over `min..max`: a value in that range. The range must be
/// nonempty, else the call panics.
#[verifier::external_body]
pub fn random_range(rand: &seeded_random::Random, min: u32, max: u32) -> (r: u32)
    requires
        min < max,
    ensures
        min <= r < max,
{
    rand.range(min, max)
}

/// Relies on std's `Instant::now`: the clock. Nothing is promised of its
/// value.
#[verifier::external_body]
pub fn instant_now() -> std::time::Instant {
    std::time::Instant::now()
}

/// Relies on std's `Instant::elapsed` and `Duration::as_millis`: the
/// milliseconds since `start`, saturated into 64 bits. Nothing is promised
/// of the value.
#[verifier::external_body]
pub fn elapsed_millis(start: &std::time::Instant) -> u64 {
    let m = start.elapsed().as_millis();
    if m > u64::MAX as u128 {
        u64::MAX
    } else {
        m as u64
    }
}

} // verus!
