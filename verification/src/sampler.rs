//! The injected random source for the stochastic parts of a tick: the
//! replenishment sample and the per-neighbor flagging draw. The engine
//! threads a `Sampler` through `tick` explicitly, so tests can seed it.
//!
//! Nothing is promised about individual draws beyond what holds of every
//! outcome; the verified engine states its effects for whatever the source
//! returns.

use rand::Rng;
use rand::SeedableRng;
use vstd::prelude::*;

verus! {

#[verifier::external_type_specification]
#[verifier::external_body]
pub struct ExStdRng(rand::rngs::StdRng);

/// An explicitly injected, seedable random source.
pub struct Sampler {
    rng: rand::rngs::StdRng,
}

/// Relies on rand's `SeedableRng::seed_from_u64` for `StdRng`: derives a
/// generator state deterministically from the seed.
#[verifier::external_body]
fn seeded_rng(seed: u64) -> rand::rngs::StdRng {
    rand::rngs::StdRng::seed_from_u64(seed)
}

/// Relies on rand's `SeedableRng::from_entropy` for `StdRng`: a generator
/// seeded from the operating system.
#[verifier::external_body]
fn entropy_rng() -> rand::rngs::StdRng {
    rand::rngs::StdRng::from_entropy()
}

impl Sampler {
    /// A deterministic source: the same seed gives the same draws.
    pub fn seeded(seed: u64) -> Sampler {
        Sampler { rng: seeded_rng(seed) }
    }

    /// A source seeded from the operating system's entropy.
    pub fn from_entropy() -> Sampler {
        Sampler { rng: entropy_rng() }
    }

    /// Relies on `rand::seq::index::sample`: it returns exactly `amount`
    /// distinct indices drawn uniformly without replacement from
    /// `0..length`, and panics when `amount > length`, which the
    /// precondition rules out. `IndexVec::into_vec` only converts the
    /// result.
    #[verifier::external_body]
    pub(crate) fn sample_indices(&mut self, length: usize, amount: usize) -> (r: Vec<usize>)
        requires
            amount <= length,
        ensures
            r@.len() == amount,
            forall|i: int| 0 <= i < r@.len() ==> (#[trigger] r@[i]) < length,
            forall|i: int, j: int| 0 <= i < j < r@.len() ==> r@[i] != r@[j],
    {
        rand::seq::index::sample(&mut self.rng, length, amount).into_vec()
    }

    /// Relies on `rand::Rng::gen_ratio`: one Bernoulli draw that is `true`
    /// with probability `num / den`. It panics when `den == 0` or
    /// `num > den`, which the precondition rules out; nothing is promised
    /// of the outcome of a single draw.
    #[verifier::external_body]
    pub(crate) fn ratio(&mut self, num: u32, den: u32) -> bool
        requires
            0 < den,
            num <= den,
    {
        self.rng.gen_ratio(num, den)
    }
}

} // verus!
