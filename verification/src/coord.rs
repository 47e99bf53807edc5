//! Integer 2D coordinates for tile space and world (block) space, with the
//! packed 64-bit key used by the sparse tile map.

use vstd::prelude::*;

verus! {

/// A 2D integer coordinate. Used both for tile-space cells and for
/// world-space block positions.
#[derive(Clone, Copy, PartialEq, Eq, Structural, Debug)]
pub struct Coord {
    pub x: i32,
    pub y: i32,
}

impl Coord {
    pub fn new(x: i32, y: i32) -> (r: Coord)
        ensures
            r.x == x,
            r.y == y,
    {
        Coord { x, y }
    }
}

/// The packed map key of a coordinate: the two 32-bit halves side by side.
pub open spec fn spec_key(c: Coord) -> u64 {
    ((c.x as u32 as u64) << 32u64) | (c.y as u32 as u64)
}

/// Packing is injective: distinct coordinates give distinct keys.
pub proof fn lemma_key_injective(a: Coord, b: Coord)
    ensures
        spec_key(a) == spec_key(b) ==> a == b,
{
    let ax = a.x;
    let ay = a.y;
    let bx = b.x;
    let by = b.y;
    assert((((ax as u32 as u64) << 32u64) | (ay as u32 as u64)) == (((bx as u32 as u64) << 32u64)
        | (by as u32 as u64)) ==> ax == bx && ay == by) by (bit_vector);
    assert(ax == bx && ay == by ==> a == b);
}

/// Computes the packed key of `c`.
pub fn key(c: Coord) -> (r: u64)
    ensures
        r == spec_key(c),
{
    ((c.x as u32 as u64) << 32u64) | (c.y as u32 as u64)
}

/// The four cardinal unit offsets, in the fixed order +y, +x, -y, -x that
/// way-marker slots follow.
pub open spec fn spec_card(d: int) -> (int, int) {
    if d == 0 {
        (0, 1)
    } else if d == 1 {
        (1, 0)
    } else if d == 2 {
        (0, -1)
    } else {
        (-1, 0)
    }
}

/// One cardinal step from `c`, or `None` where the step would leave the
/// coordinate range.
pub open spec fn spec_step(c: Coord, d: int) -> Option<Coord> {
    let dx = spec_card(d).0;
    let dy = spec_card(d).1;
    if i32::MIN <= c.x + dx <= i32::MAX && i32::MIN <= c.y + dy <= i32::MAX {
        Some(Coord { x: (c.x + dx) as i32, y: (c.y + dy) as i32 })
    } else {
        None
    }
}

/// Whether `b` is one cardinal step from `a`.
pub open spec fn adjacent(a: Coord, b: Coord) -> bool {
    exists|d: int| 0 <= d < 4 && spec_step(a, d) == Some(b)
}

/// Takes one cardinal step from `c`, reporting `None` where the step would
/// overflow the coordinate range.
pub fn step(c: Coord, d: usize) -> (r: Option<Coord>)
    requires
        d < 4,
    ensures
        r == spec_step(c, d as int),
        r is Some ==> adjacent(c, r->Some_0),
{
    let (dx, dy): (i32, i32) = match d {
        0 => (0, 1),
        1 => (1, 0),
        2 => (0, -1),
        _ => (-1, 0),
    };
    let r = match (c.x.checked_add(dx), c.y.checked_add(dy)) {
        (Some(x), Some(y)) => Some(Coord { x, y }),
        _ => None,
    };
    proof {
        if r is Some {
            assert(spec_step(c, d as int) == Some(r->Some_0));
        }
    }
    r
}

} // verus!
