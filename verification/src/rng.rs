use vstd::prelude::*;

use rand::seq::SliceRandom;
use rand::RngExt;
use rand::SeedableRng;

verus! {

#[verifier::external_type_specification]
#[verifier::external_body]
pub struct ExStdRng(rand::rngs::StdRng);

/// The injectable random source for one generation run. It wraps a seedable
/// generator so that a caller who fixes the seed reproduces the same grid.
pub struct GridRng {
    rng: rand::rngs::StdRng,
}

impl GridRng {
    /// Relies on rand's `StdRng` through `SeedableRng::seed_from_u64`: a
    /// deterministic generator built from a 64-bit seed.
    #[verifier::external_body]
    pub fn from_seed(seed: u64) -> (r: GridRng) {
        GridRng { rng: rand::rngs::StdRng::seed_from_u64(seed) }
    }

    /// Relies on rand's `RngExt::random_range` over `0..n`: the result lies
    /// in that half-open range, and the call panics only on an empty range,
    /// which the precondition rules out.
    #[verifier::external_body]
    pub fn pick_index(&mut self, n: usize) -> (r: usize)
        requires
            n >= 1,
        ensures
            r < n,
    {
        self.rng.random_range(0..n)
    }

    /// Relies on rand's `SliceRandom::shuffle`: the slice is permuted in
    /// place, so the multiset of its elements is unchanged.
    #[verifier::external_body]
    pub fn shuffle_u8(&mut self, v: &mut Vec<u8>)
        ensures
            final(v)@.to_multiset() == old(v)@.to_multiset(),
            final(v)@.len() == old(v)@.len(),
    {
        v.shuffle(&mut self.rng);
    }
}

} // verus!
