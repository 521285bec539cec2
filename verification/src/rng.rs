use vstd::prelude::*;

use rand::Rng;
use rand::SeedableRng;

verus! {

#[verifier::external_type_specification]
#[verifier::external_body]
pub struct ExStdRng(rand::rngs::StdRng);

/// The source of randomness for seeding: a generator passed explicitly so a
/// run can be reproduced from a fixed seed. Nothing is promised about the
/// values drawn beyond their range.
pub struct Sampler {
    rng: rand::rngs::StdRng,
}

impl Sampler {
    /// Relies on rand::SeedableRng::seed_from_u64: builds a generator whose
    /// draws are a fixed function of the seed.
    #[verifier::external_body]
    pub fn from_seed(seed: u64) -> (s: Sampler) {
        Sampler { rng: rand::rngs::StdRng::seed_from_u64(seed) }
    }

    /// Relies on rand::SeedableRng::from_entropy: builds a generator seeded
    /// from the operating system. Its documentation says it panics if the
    /// OS entropy source fails, an environmental failure independent of any
    /// input.
    #[verifier::external_body]
    pub fn from_entropy() -> (s: Sampler) {
        Sampler { rng: rand::rngs::StdRng::from_entropy() }
    }

    /// Relies on rand::Rng::gen_range, which returns a value in `[0, n)`
    /// and panics only when the range is empty; `n > 0` rules that out.
    #[verifier::external_body]
    pub fn below(&mut self, n: u64) -> (r: u64)
        requires
            n > 0,
        ensures
            r < n,
    {
        self.rng.gen_range(0, n)
    }
}

} // verus!
