//! Seeded random source for generation, backed by `rand`'s `SmallRng`.
//!
//! Nothing is assumed about the values drawn beyond their range: every proof
//! in this crate holds for every possible stream of draws.

use vstd::prelude::*;

verus! {

#[verifier::external_type_specification]
#[verifier::external_body]
pub struct ExSmallRng(rand::rngs::SmallRng);

/// The random source threaded through the generation pipeline. Seeded once;
/// a fixed seed gives a fixed stream of draws within one build of the crate.
pub struct GenRng {
    inner: rand::rngs::SmallRng,
}

/// Relies on rand's `SeedableRng::seed_from_u64`: builds a generator from a
/// 64-bit seed; never fails.
#[verifier::external_body]
fn small_rng_from_seed(seed: u64) -> rand::rngs::SmallRng {
    <rand::rngs::SmallRng as rand::SeedableRng>::seed_from_u64(seed)
}

/// Relies on rand's `RngCore::next_u32`: returns a 32-bit draw; no more is
/// promised of the value.
#[verifier::external_body]
fn small_rng_next_u32(rng: &mut rand::rngs::SmallRng) -> u32 {
    rand::RngCore::next_u32(rng)
}

/// Relies on rand's `Rng::gen_range` over a half-open integer range: returns
/// a value of the range, and panics only when the range is empty, which the
/// precondition rules out.
#[verifier::external_body]
fn small_rng_range_u32(rng: &mut rand::rngs::SmallRng, lo: u32, hi: u32) -> (r: u32)
    requires
        lo < hi,
    ensures
        lo <= r < hi,
{
    rand::Rng::gen_range(rng, lo..hi)
}

impl GenRng {
    /// Builds a generator from a seed.
    pub fn new(seed: u64) -> GenRng {
        GenRng { inner: small_rng_from_seed(seed) }
    }

    /// Draws 32 bits. Nothing is known of the value.
    pub fn next_u32(&mut self) -> u32 {
        small_rng_next_u32(&mut self.inner)
    }

    /// Draws a value of `[lo, hi)`.
    pub fn range_u32(&mut self, lo: u32, hi: u32) -> (r: u32)
        requires
            lo < hi,
        ensures
            lo <= r < hi,
    {
        small_rng_range_u32(&mut self.inner, lo, hi)
    }

    /// Draws a signed value of `[lo, hi)`.
    pub fn range_i32(&mut self, lo: i32, hi: i32) -> (r: i32)
        requires
            lo < hi,
        ensures
            lo <= r < hi,
    {
        let span = ((hi as i64) - (lo as i64)) as u32;
        let d = small_rng_range_u32(&mut self.inner, 0, span);
        ((lo as i64) + (d as i64)) as i32
    }
}

} // verus!
