use vstd::prelude::*;

verus! {

/// Largest coordinate magnitude the geometric primitives accept. With both
/// coordinates of every point bounded by this value, coordinate differences
/// fit in `i64` and every cross product of differences fits in `i128`.
pub const COORD_LIMIT: i64 = 0x3fff_ffff_ffff_ffff;

/// A location in the plane, with exact integer coordinates. Immutable once
/// constructed; the scanner borrows points read-only and refers to them by
/// their index in the caller-supplied sequence.
#[derive(Clone, Copy, PartialEq, Eq, Debug)]
pub struct Point {
    pub x: i64,
    pub y: i64,
}

impl Point {
    /// Both coordinates are small enough for the geometric primitives to be
    /// evaluated without overflow.
    pub open spec fn in_range(self) -> bool {
        &&& -COORD_LIMIT <= self.x && self.x <= COORD_LIMIT
        &&& -COORD_LIMIT <= self.y && self.y <= COORD_LIMIT
    }

    pub fn new(x: i64, y: i64) -> (p: Point)
        ensures
            p.x == x,
            p.y == y,
    {
        Point { x, y }
    }
}

/// `p` is strictly lower than `q`, or level with `q` and strictly to its
/// left: the order that the pivot of the scan minimises.
pub open spec fn lex_lt(p: Point, q: Point) -> bool {
    p.y < q.y || (p.y == q.y && p.x < q.x)
}

/// `p` is lower than `q`, or level with `q` and not to its right.
pub open spec fn lex_le(p: Point, q: Point) -> bool {
    p.y < q.y || (p.y == q.y && p.x <= q.x)
}

} // verus!
