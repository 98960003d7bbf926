use rand::Rng;
use rand::SeedableRng;
use vstd::prelude::*;

verus! {

/// rand's standard generator, opaque to verification.
#[verifier::external_type_specification]
#[verifier::external_body]
pub struct ExStdRng(rand::rngs::StdRng);

/// The word that rand's standard generator yields at draw position `pos`
/// of the stream begun by the numeric seed `seed`.  In the version of
/// rand built here, seeding and drawing are functions of the seed and of
/// the draws made before, so the word is determined by the pair.
pub uninterp spec fn rng_out(seed: u64, pos: nat) -> u32;

/// A deterministic random source: rand's standard generator seeded once
/// from a number, remembering that seed and how many words were drawn.
pub struct SeededRng {
    inner: rand::rngs::StdRng,
    seed: Ghost<u64>,
    drawn: Ghost<nat>,
}

/// Relies on rand's `SeedableRng::seed_from_u64` for `StdRng`: the
/// generator's state is computed from the numeric seed alone.
#[verifier::external_body]
fn raw_from_seed(seed: u64) -> rand::rngs::StdRng {
    rand::rngs::StdRng::seed_from_u64(seed)
}

impl SeededRng {
    /// The seed this source was made from.
    pub closed spec fn seed(&self) -> u64 {
        self.seed@
    }

    /// How many words have been drawn so far.
    pub closed spec fn drawn(&self) -> nat {
        self.drawn@
    }

    /// A fresh source, its stream begun by the given seed.
    pub fn from_seed(seed: u64) -> (r: SeededRng)
        ensures
            r.seed() == seed,
            r.drawn() == 0,
    {
        SeededRng { inner: raw_from_seed(seed), seed: Ghost(seed), drawn: Ghost(0nat) }
    }

    /// Relies on rand's `Rng::next_u32` for `StdRng`: each drawn word is
    /// computed from the generator's state, which the seed and the count
    /// of earlier draws determine.
    #[verifier::external_body]
    pub fn next_u32(&mut self) -> (r: u32)
        ensures
            r == rng_out(old(self).seed(), old(self).drawn()),
            final(self).seed() == old(self).seed(),
            final(self).drawn() == old(self).drawn() + 1,
    {
        self.inner.next_u32()
    }
}

} // verus!
