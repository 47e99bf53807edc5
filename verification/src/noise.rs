//! Deterministic seeded integer noise over coordinates. Used for the jitter
//! of the partition sampler, for dithering colors, and for the reproducible
//! per-coordinate chance tests during entity supplementation.

use vstd::prelude::*;

use crate::coord::{spec_key, key, Coord};

verus! {

/// A pure integer position-hashing field: the same seed, coordinate and salt
/// always give the same value, on every machine.
#[derive(Clone, Copy, PartialEq, Eq, Structural, Debug)]
pub struct Noise {
    pub seed: u64,
}

/// One round of 64-bit avalanche mixing.
#[verifier::opaque]
pub open spec fn spec_mix(z: u64) -> u64 {
    let a = z ^ (z >> 30u64);
    let b = vstd::wrapping::u64_specs::wrapping_mul(a, 0xbf58476d1ce4e5b9);
    let c = b ^ (b >> 27u64);
    let d = vstd::wrapping::u64_specs::wrapping_mul(c, 0x94d049bb133111eb);
    d ^ (d >> 31u64)
}

/// The field's value: the upper half of the mix of seed, salt and position.
#[verifier::opaque]
pub open spec fn spec_noise(seed: u64, c: Coord, salt: u64) -> u32 {
    let s = vstd::wrapping::u64_specs::wrapping_add(
        seed,
        vstd::wrapping::u64_specs::wrapping_mul(salt, 0x9e3779b97f4a7c15),
    );
    (spec_mix(vstd::wrapping::u64_specs::wrapping_add(s, spec_key(c))) >> 32u64) as u32
}

fn mix(z: u64) -> (r: u64)
    ensures
        r == spec_mix(z),
{
    proof {
        reveal(spec_mix);
    }
    let a = z ^ (z >> 30u64);
    let b = a.wrapping_mul(0xbf58476d1ce4e5b9);
    let c = b ^ (b >> 27u64);
    let d = c.wrapping_mul(0x94d049bb133111eb);
    d ^ (d >> 31u64)
}

impl Noise {
    pub fn new(seed: u64) -> (r: Noise)
        ensures
            r.seed == seed,
    {
        Noise { seed }
    }

    /// The noise value at `c` under `salt`.
    pub fn get(&self, c: Coord, salt: u64) -> (r: u32)
        ensures
            r == spec_noise(self.seed, c, salt),
    {
        proof {
            reveal(spec_noise);
        }
        let s = self.seed.wrapping_add(salt.wrapping_mul(0x9e3779b97f4a7c15));
        (mix(s.wrapping_add(key(c))) >> 32u64) as u32
    }

    /// A reproducible one-in-`n` chance keyed by coordinate.
    pub fn chance_one_in(&self, c: Coord, salt: u64, n: u32) -> (r: bool)
        requires
            n >= 1,
        ensures
            r == (spec_noise(self.seed, c, salt) % n == 0),
    {
        self.get(c, salt) % n == 0
    }
}

} // verus!
