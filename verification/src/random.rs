//! The injected source of pseudo-random numbers.

use vstd::prelude::*;

verus! {

/// `rand::rngs::StdRng`, the standard seedable generator, carried as an
/// opaque value.
#[verifier::external_type_specification]
#[verifier::external_body]
pub struct ExStdRng(rand::rngs::StdRng);

/// A seeded generator: equal seeds give equal sequences of draws.
pub struct RandomSource {
    rng: rand::rngs::StdRng,
}

impl RandomSource {
    /// A generator started from `seed`.
    pub fn new(seed: u64) -> RandomSource {
        RandomSource { rng: seeded(seed) }
    }

    /// Draws an integer from `lo` up to, but not including, `hi`.
    pub fn pick(&mut self, lo: i64, hi: i64) -> (r: i64)
        requires
            lo < hi,
        ensures
            lo <= r < hi,
    {
        draw(&mut self.rng, lo, hi)
    }
}

/// `rand::SeedableRng::seed_from_u64` for `rand::rngs::StdRng`.  Nothing is
/// claimed of the generator it returns.
#[verifier::external_body]
fn seeded(seed: u64) -> rand::rngs::StdRng {
    rand::SeedableRng::seed_from_u64(seed)
}

/// `rand::Rng::gen_range` on a half-open range of `i64`.  The range must
/// not be empty, as the method panics on an empty one; the value drawn
/// lies in the range, which is all that is claimed of it.
#[verifier::external_body]
fn draw(rng: &mut rand::rngs::StdRng, lo: i64, hi: i64) -> (r: i64)
    requires
        lo < hi,
    ensures
        lo <= r < hi,
{
    rand::Rng::gen_range(rng, lo..hi)
}

} // verus!
