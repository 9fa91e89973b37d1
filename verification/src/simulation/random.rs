//! The random source for stochastic adversaries: a seeded ChaCha
//! generator for reproducible runs, or the thread-local generator.

use vstd::prelude::*;
use rand::Rng;
use rand::SeedableRng;

verus! {

#[verifier::external_type_specification]
#[verifier::external_body]
pub struct ExChaCha8Rng(rand_chacha::ChaCha8Rng);

#[verifier::external_type_specification]
#[verifier::external_body]
pub struct ExThreadRng(rand::rngs::ThreadRng);

/// Relies on rand::thread_rng: a handle to the thread-local generator.
#[verifier::external_body]
fn new_thread_rng() -> rand::rngs::ThreadRng {
    rand::thread_rng()
}

/// Relies on rand_chacha::ChaCha8Rng::seed_from_u64 (SeedableRng): a
/// generator seeded from the given word.
#[verifier::external_body]
fn chacha_from_seed(seed: u64) -> rand_chacha::ChaCha8Rng {
    rand_chacha::ChaCha8Rng::seed_from_u64(seed)
}

/// Relies on rand::Rng::gen_range over `0..max` on the seeded generator:
/// it panics on an empty range and otherwise returns a value of the
/// range.  Which value comes back is not stated: it depends on the
/// generator's state.
#[verifier::external_body]
fn gen_range_seeded(rng: &mut rand_chacha::ChaCha8Rng, max: usize) -> (r: usize)
    requires
        max > 0,
    ensures
        r < max,
{
    rng.gen_range(0..max)
}

/// Relies on rand::Rng::gen_range over `0..max` on the thread-local
/// generator: it panics on an empty range and otherwise returns a value
/// of the range.
#[verifier::external_body]
fn gen_range_unseeded(rng: &mut rand::rngs::ThreadRng, max: usize) -> (r: usize)
    requires
        max > 0,
    ensures
        r < max,
{
    rng.gen_range(0..max)
}

/// Wraps either a seeded or an unseeded random number generator.
pub struct SimRng {
    pub seeded_rng: Option<rand_chacha::ChaCha8Rng>,
    pub unseeded_rng: Option<rand::rngs::ThreadRng>,
}

impl SimRng {
    /// One of the two generators is present.
    pub open spec fn wf(self) -> bool {
        self.seeded_rng is Some || self.unseeded_rng is Some
    }

    /// Get a new unseeded `SimRng`.
    pub fn new() -> (r: Self)
        ensures
            r.wf(),
            r.seeded_rng is None,
    {
        SimRng { seeded_rng: None, unseeded_rng: Some(new_thread_rng()) }
    }

    /// Get a new `SimRng` seeded with the given value.
    pub fn from_seed(seed: u64) -> (r: Self)
        ensures
            r.wf(),
            r.seeded_rng is Some,
    {
        SimRng { seeded_rng: Some(chacha_from_seed(seed)), unseeded_rng: None }
    }

    /// Get a random value between 0 (inclusive) and `max` (exclusive).
    pub fn rand_int(&mut self, max: usize) -> (r: usize)
        requires
            old(self).wf(),
            max > 0,
        ensures
            final(self).wf(),
            r < max,
    {
        match &mut self.seeded_rng {
            Some(rng) => gen_range_seeded(rng, max),
            None => match &mut self.unseeded_rng {
                Some(rng) => gen_range_unseeded(rng, max),
                None => vstd::pervasive::unreached(),
            },
        }
    }
}

impl Default for SimRng {
    /// The default random source is unseeded.
    fn default() -> (r: Self)
        ensures
            r.wf(),
    {
        Self::new()
    }
}

} // verus!
