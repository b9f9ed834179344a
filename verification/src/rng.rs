//! The seeded random source of a game session.
use rand::Rng;
use rand::SeedableRng;
use vstd::prelude::*;

verus! {

/// The standard seedable generator of `rand`.
#[verifier::external_type_specification]
#[verifier::external_body]
pub struct ExStdRng(rand::rngs::StdRng);

/// Calls `StdRng::seed_from_u64`: the generator that a seed determines.
/// Nothing is stated of the generator, whose state is opaque here.
#[verifier::external_body]
fn std_rng_from_seed(seed: u64) -> rand::rngs::StdRng {
    rand::rngs::StdRng::seed_from_u64(seed)
}

/// Calls `rand::random::<u64>()`: a seed drawn from the thread-local
/// generator. Any value can come back, so nothing is stated.
#[verifier::external_body]
fn entropy_seed() -> u64 {
    rand::random::<u64>()
}

/// Calls `Rng::random_range(0..bound)` on the generator: a value that the
/// documentation of `rand` places in `0..bound` (the range must not be empty,
/// or the call panics).
#[verifier::external_body]
pub(crate) fn random_below(rng: &mut rand::rngs::StdRng, bound: u32) -> (r: u32)
    requires
        bound > 0,
    ensures
        r < bound,
{
    rng.random_range(0..bound)
}

/// A percentile roll in `0..100` from the generator.
pub(crate) fn roll_percent(rng: &mut rand::rngs::StdRng) -> (roll: u32)
    ensures
        roll < 100,
{
    random_below(rng, 100)
}

/// The session's generator together with the seed that started it.
pub struct GameRng {
    pub seed: u64,
    pub rng: rand::rngs::StdRng,
}

impl GameRng {
    /// A generator started from `seed`. The contract states the stored seed
    /// only: the generator is `StdRng::seed_from_u64(seed)`, whose output `rand`
    /// documents as not portable across versions or platforms, so nothing here
    /// names the numbers it will give.
    pub fn new(seed: u64) -> (r: GameRng)
        ensures
            r.seed == seed,
    {
        GameRng { seed, rng: std_rng_from_seed(seed) }
    }
}

impl Default for GameRng {
    /// A generator started from a fresh random seed.
    fn default() -> Self {
        let seed = entropy_seed();
        GameRng { seed, rng: std_rng_from_seed(seed) }
    }
}

} // verus!
