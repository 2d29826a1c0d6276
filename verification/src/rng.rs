use vstd::prelude::*;

verus! {

#[verifier::external_type_specification]
#[verifier::external_body]
pub struct ExStdRng(rand::rngs::StdRng);

/// A seedable random generator, threaded explicitly through the generation
/// calls so that a fixed seed replays the same level.
///
/// The generator itself is opaque: nothing is assumed about the values it
/// yields beyond the range bound below, so everything proved downstream
/// holds for every possible draw.
pub struct GameRng {
    inner: rand::rngs::StdRng,
}

impl GameRng {
    /// Relies on rand::SeedableRng::seed_from_u64: builds a generator whose
    /// stream is a deterministic function of the seed alone.
    #[verifier::external_body]
    pub fn from_seed(seed: u64) -> (r: GameRng) {
        GameRng { inner: <rand::rngs::StdRng as rand::SeedableRng>::seed_from_u64(seed) }
    }

    /// Relies on rand::Rng::random_range: yields a uniformly random value of
    /// the half-open range `lo..hi`, and panics only on an empty range,
    /// which the precondition rules out.
    #[verifier::external_body]
    pub fn random_range(&mut self, lo: usize, hi: usize) -> (r: usize)
        requires
            lo < hi,
        ensures
            lo <= r < hi,
    {
        rand::Rng::random_range(&mut self.inner, lo..hi)
    }
}

} // verus!
