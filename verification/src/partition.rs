//! Jittered-grid spatial partition: each tile-space cell owns one seeded,
//! jittered center point in world space, and a world position is attributed
//! to the cell whose center lies closest. This carves the plane into organic
//! plot-shaped regions without storing any per-block geometry.

use vstd::prelude::*;

use crate::coord::Coord;
use crate::noise::{spec_noise, Noise};

verus! {

/// Side length of one tile-space cell, in world blocks.
pub const AREA_SIZE: u32 = 32;

/// Bound on tile coordinates handled by the partition, wide enough for any
/// settlement but keeping all world-space arithmetic inside `i32`.
pub open spec fn tile_in_range(c: Coord) -> bool {
    -65536 <= c.x <= 65536 && -65536 <= c.y <= 65536
}

/// Bound on world-space coordinates handled by the partition.
pub open spec fn world_in_range(c: Coord) -> bool {
    -2000000 <= c.x <= 2000000 && -2000000 <= c.y <= 2000000
}

/// The tile-space cell of a world-space axis value.
pub open spec fn spec_to_tile(e: int) -> int {
    e / 32
}

/// The tile-space cell of a world-space position.
pub open spec fn spec_cell_of(p: Coord) -> Coord {
    Coord { x: spec_to_tile(p.x as int) as i32, y: spec_to_tile(p.y as int) as i32 }
}

/// Maps a world-space axis value to its tile-space cell.
pub fn to_tile(e: i32) -> (r: i32)
    ensures
        r == spec_to_tile(e as int),
        r == spec_to_tile(e as int) as i32,
{
    proof {
        assert(i32::MIN <= e as int / 32 <= i32::MAX) by {
            vstd::arithmetic::div_mod::lemma_fundamental_div_mod(e as int, 32);
        }
    }
    match e.checked_div_euclid(32) {
        Some(q) => q,
        None => 0,
    }
}

/// Maps a world-space position to its tile-space cell.
pub fn cell_of(p: Coord) -> (r: Coord)
    ensures
        r == spec_cell_of(p),
{
    Coord { x: to_tile(p.x), y: to_tile(p.y) }
}

/// The jittered world-space center of a tile-space cell.
pub open spec fn spec_center(seed: u64, cell: Coord) -> Coord {
    let jx = spec_noise(seed, cell, 1) % 25;
    let jy = spec_noise(seed, cell, 2) % 25;
    Coord {
        x: (cell.x * 32 + 4 + jx) as i32,
        y: (cell.y * 32 + 4 + jy) as i32,
    }
}

/// The seeded jittered-grid sampler. One instance per [`crate::land::Land`].
pub struct Partition {
    noise: Noise,
}

impl Partition {
    /// The seed the sampler was built with.
    pub closed spec fn seed(&self) -> u64 {
        self.noise.seed
    }

    pub fn new(seed: u64) -> (r: Partition)
        ensures
            r.seed() == seed,
    {
        Partition { noise: Noise::new(seed) }
    }

    /// The jittered center of `cell`: the cell's low corner plus a seeded
    /// jitter of `4 + (0..25)` blocks per axis, so the center always lies
    /// strictly inside its own cell.
    pub fn center(&self, cell: Coord) -> (r: Coord)
        requires
            tile_in_range(cell),
        ensures
            r == spec_center(self.seed(), cell),
            cell.x * 32 + 4 <= r.x <= cell.x * 32 + 28,
            cell.y * 32 + 4 <= r.y <= cell.y * 32 + 28,
            spec_cell_of(r) == cell,
    {
        let jx = (self.noise.get(cell, 1) % 25) as i32;
        let jy = (self.noise.get(cell, 2) % 25) as i32;
        let r = Coord { x: cell.x * 32 + 4 + jx, y: cell.y * 32 + 4 + jy };
        proof {
            lemma_point_in_cell(r, cell);
        }
        r
    }
}

/// A point whose coordinates lie inside a cell's world-space box belongs to
/// that cell.
pub proof fn lemma_point_in_cell(p: Coord, cell: Coord)
    requires
        cell.x * 32 <= p.x < cell.x * 32 + 32,
        cell.y * 32 <= p.y < cell.y * 32 + 32,
    ensures
        spec_cell_of(p) == cell,
{
    assert(p.x as int / 32 == cell.x as int) by {
        vstd::arithmetic::div_mod::lemma_div_multiples_vanish_fancy(
            cell.x as int,
            p.x - cell.x * 32,
            32,
        );
        assert(32 * (cell.x as int) + (p.x - cell.x * 32) == p.x as int);
    }
    assert(p.y as int / 32 == cell.y as int) by {
        vstd::arithmetic::div_mod::lemma_div_multiples_vanish_fancy(
            cell.y as int,
            p.y - cell.y * 32,
            32,
        );
        assert(32 * (cell.y as int) + (p.y - cell.y * 32) == p.y as int);
    }
}

} // verus!
