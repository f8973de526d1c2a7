//! The crate's randomness, wrapped around `rand`'s `SmallRng`.  Playouts
//! draw indices below a bound; nothing more is assumed of the generator than
//! that its draws stay in range.

use vstd::prelude::*;

use rand::Rng;
use rand::SeedableRng;
use rand::rngs::SmallRng;

verus! {

#[verifier::external_type_specification]
#[verifier::external_body]
pub struct ExSmallRng(SmallRng);

/// A random number generator for playouts.
pub struct Rand {
    rng: SmallRng,
}

impl Rand {
    /// Relies on rand's `SeedableRng::seed_from_u64` for `SmallRng`: builds
    /// a generator from a fixed seed, for reproducible runs.
    #[verifier::external_body]
    pub fn from_seed(seed: u64) -> Rand {
        Rand { rng: SmallRng::seed_from_u64(seed) }
    }

    /// Relies on rand's `SeedableRng::from_entropy` for `SmallRng`: a
    /// generator seeded from the operating system.
    #[verifier::external_body]
    pub fn from_entropy() -> Rand {
        Rand { rng: SmallRng::from_entropy() }
    }

    /// Relies on rand's `Rng::gen_range` on `0..n`: returns a value of the
    /// range, and panics only when the range is empty, which the
    /// precondition rules out.
    #[verifier::external_body]
    pub fn below(&mut self, n: usize) -> (r: usize)
        requires
            n >= 1,
        ensures
            r < n,
    {
        self.rng.gen_range(0..n)
    }
}

} // verus!
