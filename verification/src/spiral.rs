//! Deterministic spiral enumeration of tile coordinates: the origin first,
//! then each ring of growing Chebyshev radius in a fixed scan order.

use vstd::prelude::*;

use crate::coord::Coord;

verus! {

broadcast use vstd::seq_lib::lemma_seq_contains_after_push;

/// The Chebyshev distance between two coordinates.
pub open spec fn cheb(a: Coord, b: Coord) -> int {
    vstd::math::max(vstd::math::abs(a.x - b.x) as int, vstd::math::abs(a.y - b.y) as int)
}

/// The spiral walk's total order: closer rings first; within one ring, rows
/// from low to high and, within a row, columns from low to high.
pub open spec fn spiral_before(a: Coord, b: Coord, origin: Coord) -> bool {
    ||| cheb(a, origin) < cheb(b, origin)
    ||| (cheb(a, origin) == cheb(b, origin) && ((a.y - origin.y) < (b.y - origin.y) || (a.y == b.y
        && a.x < b.x)))
}

/// Bound on coordinates fed to the spiral walker, far beyond any settlement's
/// extent but small enough that offset arithmetic cannot overflow.
pub open spec fn in_spiral_range(origin: Coord, cap: u32) -> bool {
    -1000000 <= origin.x <= 1000000 && -1000000 <= origin.y <= 1000000 && cap <= 1000
}

/// Enumerates every coordinate within Chebyshev distance `cap` of `origin`,
/// each exactly once, rings in order of growing radius.
pub fn spiral(origin: Coord, cap: u32) -> (v: Vec<Coord>)
    requires
        in_spiral_range(origin, cap),
    ensures
        forall|i: int| 0 <= i < v@.len() ==> cheb(v@[i], origin) <= cap,
        forall|c: Coord| cheb(c, origin) <= cap ==> v@.contains(c),
        forall|i: int, j: int|
            0 <= i <= j < v@.len() ==> cheb(v@[i], origin) <= cheb(v@[j], origin),
        forall|i: int, j: int| 0 <= i < j < v@.len() ==> v@[i] != v@[j],
        forall|i: int, j: int| 0 <= i < j < v@.len() ==> spiral_before(v@[i], v@[j], origin),
        v@.len() >= 1 && v@[0] == origin,
{
    let mut v: Vec<Coord> = Vec::new();
    v.push(origin);
    proof {
        assert(v@[0] == origin);
        assert(v@.contains(origin));
        assert(forall|c: Coord| cheb(c, origin) <= 0 ==> c == origin);
    }
    let mut r: u32 = 1;
    while r <= cap
        invariant
            in_spiral_range(origin, cap),
            1 <= r <= cap + 1,
            forall|i: int| 0 <= i < v@.len() ==> cheb(v@[i], origin) < r,
            forall|c: Coord| cheb(c, origin) < r ==> v@.contains(c),
            forall|i: int, j: int|
                0 <= i <= j < v@.len() ==> cheb(v@[i], origin) <= cheb(v@[j], origin),
            forall|i: int, j: int| 0 <= i < j < v@.len() ==> v@[i] != v@[j],
            forall|i: int, j: int| 0 <= i < j < v@.len() ==> spiral_before(v@[i], v@[j], origin),
            v@.len() >= 1 && v@[0] == origin,
        decreases cap + 1 - r,
    {
        let ri: i32 = r as i32;
        let mut dy: i32 = -ri;
        while dy <= ri
            invariant
                in_spiral_range(origin, cap),
                1 <= r <= cap,
                ri == r,
                -ri <= dy <= ri + 1,
                forall|i: int| 0 <= i < v@.len() ==> cheb(v@[i], origin) <= r,
                forall|c: Coord| cheb(c, origin) < r ==> v@.contains(c),
                forall|c: Coord|
                    cheb(c, origin) == r && c.y - origin.y < dy ==> v@.contains(c),
                forall|i: int|
                    0 <= i < v@.len() && cheb(v@[i], origin) == r ==> v@[i].y - origin.y < dy,
                forall|i: int, j: int|
                    0 <= i <= j < v@.len() ==> cheb(v@[i], origin) <= cheb(v@[j], origin),
                forall|i: int, j: int| 0 <= i < j < v@.len() ==> v@[i] != v@[j],
                forall|i: int, j: int|
                    0 <= i < j < v@.len() ==> spiral_before(v@[i], v@[j], origin),
                v@.len() >= 1 && v@[0] == origin,
            decreases ri + 1 - dy,
        {
            let mut dx: i32 = -ri;
            while dx <= ri
                invariant
                    in_spiral_range(origin, cap),
                    1 <= r <= cap,
                    ri == r,
                    -ri <= dy <= ri,
                    -ri <= dx <= ri + 1,
                    forall|i: int| 0 <= i < v@.len() ==> cheb(v@[i], origin) <= r,
                    forall|c: Coord| cheb(c, origin) < r ==> v@.contains(c),
                    forall|c: Coord|
                        cheb(c, origin) == r && c.y - origin.y < dy ==> v@.contains(c),
                    forall|c: Coord|
                        cheb(c, origin) == r && c.y - origin.y == dy && c.x - origin.x < dx
                            ==> v@.contains(c),
                    forall|i: int|
                        0 <= i < v@.len() && cheb(v@[i], origin) == r ==> v@[i].y - origin.y < dy
                            || (v@[i].y - origin.y == dy && v@[i].x - origin.x < dx),
                    forall|i: int, j: int|
                        0 <= i <= j < v@.len() ==> cheb(v@[i], origin) <= cheb(v@[j], origin),
                    forall|i: int, j: int| 0 <= i < j < v@.len() ==> v@[i] != v@[j],
                    forall|i: int, j: int|
                        0 <= i < j < v@.len() ==> spiral_before(v@[i], v@[j], origin),
                    v@.len() >= 1 && v@[0] == origin,
                decreases ri + 1 - dx,
            {
                let adx = if dx < 0 { -dx } else { dx };
                let ady = if dy < 0 { -dy } else { dy };
                if adx == ri || ady == ri {
                    let c = Coord { x: origin.x + dx, y: origin.y + dy };
                    assert(cheb(c, origin) == r);
                    v.push(c);
                }
                dx = dx + 1;
            }
            dy = dy + 1;
        }
        assert(forall|c: Coord| cheb(c, origin) <= r ==> v@.contains(c)) by {
            assert(forall|c: Coord| cheb(c, origin) == r ==> c.y - origin.y < dy);
        }
        r = r + 1;
    }
    v
}

} // verus!
