use crate::point::Point;
use crate::point::COORD_LIMIT;
use crate::point::lex_le;
use vstd::prelude::*;

verus! {

/// Cross product of the vectors `a -> b` and `a -> c`: positive when the
/// path `a -> b -> c` turns counter-clockwise, negative when it turns
/// clockwise, zero when the three points are collinear.
pub open spec fn cross(a: Point, b: Point, c: Point) -> int {
    (b.x - a.x) * (c.y - a.y) - (b.y - a.y) * (c.x - a.x)
}

/// Squared Euclidean distance from `p` to `q`.
pub open spec fn dist2(p: Point, q: Point) -> int {
    (q.x - p.x) * (q.x - p.x) + (q.y - p.y) * (q.y - p.y)
}

/// Orientation test: the sign of the result says whether `p1 -> p2 -> p3`
/// turns counter-clockwise (positive), clockwise (negative), or is
/// collinear (zero).
pub fn ccw(p1: &Point, p2: &Point, p3: &Point) -> (r: i128)
    requires
        p1.in_range(),
        p2.in_range(),
        p3.in_range(),
    ensures
        r == cross(*p1, *p2, *p3),
{
    let dx1: i128 = p2.x as i128 - p1.x as i128;
    let dy1: i128 = p2.y as i128 - p1.y as i128;
    let dx2: i128 = p3.x as i128 - p1.x as i128;
    let dy2: i128 = p3.y as i128 - p1.y as i128;
    proof {
        lemma_diff_product_bound(dx1 as int, dy2 as int, dy1 as int, dx2 as int);
    }
    dx1 * dy2 - dy1 * dx2
}

/// Squared Euclidean distance from `p1` to `p2`, used only to compare
/// distances, so no square root is ever taken.
pub fn l2_norm_squared(p1: &Point, p2: &Point) -> (r: i128)
    requires
        p1.in_range(),
        p2.in_range(),
    ensures
        r == dist2(*p1, *p2),
{
    let dx: i128 = p2.x as i128 - p1.x as i128;
    let dy: i128 = p2.y as i128 - p1.y as i128;
    proof {
        lemma_square_bound(dx as int);
        lemma_square_bound(dy as int);
    }
    dx * dx + dy * dy
}

/// A product of two values below `2^63` in magnitude stays below `2^126`.
proof fn lemma_product_bound(a: int, b: int)
    requires
        -0x8000_0000_0000_0000 < a < 0x8000_0000_0000_0000,
        -0x8000_0000_0000_0000 < b < 0x8000_0000_0000_0000,
    ensures
        -0x4000_0000_0000_0000_0000_0000_0000_0000 < a * b
            < 0x4000_0000_0000_0000_0000_0000_0000_0000,
{
    assert(-0x4000_0000_0000_0000_0000_0000_0000_0000 < a * b
        < 0x4000_0000_0000_0000_0000_0000_0000_0000) by (nonlinear_arith)
        requires
            -0x8000_0000_0000_0000 < a < 0x8000_0000_0000_0000,
            -0x8000_0000_0000_0000 < b < 0x8000_0000_0000_0000;
}

/// Both products of a cross product of coordinate differences, and hence
/// their difference, stay inside the `i128` range.
proof fn lemma_diff_product_bound(a: int, b: int, c: int, d: int)
    requires
        -0x8000_0000_0000_0000 < a < 0x8000_0000_0000_0000,
        -0x8000_0000_0000_0000 < b < 0x8000_0000_0000_0000,
        -0x8000_0000_0000_0000 < c < 0x8000_0000_0000_0000,
        -0x8000_0000_0000_0000 < d < 0x8000_0000_0000_0000,
    ensures
        -0x4000_0000_0000_0000_0000_0000_0000_0000 < a * b
            < 0x4000_0000_0000_0000_0000_0000_0000_0000,
        -0x4000_0000_0000_0000_0000_0000_0000_0000 < c * d
            < 0x4000_0000_0000_0000_0000_0000_0000_0000,
{
    lemma_product_bound(a, b);
    lemma_product_bound(c, d);
}

/// A square of a value below `2^63` in magnitude is non-negative and below
/// `2^126`.
proof fn lemma_square_bound(a: int)
    requires
        -0x8000_0000_0000_0000 < a < 0x8000_0000_0000_0000,
    ensures
        0 <= a * a < 0x4000_0000_0000_0000_0000_0000_0000_0000,
{
    lemma_product_bound(a, a);
    assert(a * a >= 0) by (nonlinear_arith);
}

/// The polar angle of a vector out of the pivot, kept exactly as the
/// vector's coordinate differences. Angles are never turned into real
/// numbers: they are only ever compared, and for non-zero vectors that
/// point into the upper half-plane the sign of the cross product decides
/// the same order the real angles in `[0, pi)` would.
#[derive(Clone, Copy, PartialEq, Eq, Debug)]
pub struct Angle {
    pub dx: i64,
    pub dy: i64,
}

impl Angle {
    /// Differences of in-range coordinates: what `polar_angle` produces.
    pub open spec fn in_range(self) -> bool {
        &&& -2 * COORD_LIMIT <= self.dx <= 2 * COORD_LIMIT
        &&& -2 * COORD_LIMIT <= self.dy <= 2 * COORD_LIMIT
    }

    /// The vector points into the upper half-plane: strictly up, or level
    /// and not to the left. Every vector from the pivot to another input
    /// point satisfies this, because the pivot is lowest-then-leftmost.
    pub open spec fn upward(self) -> bool {
        self.dy > 0 || (self.dy == 0 && self.dx >= 0)
    }
}

/// Cross product of two direction vectors sharing their origin.
pub open spec fn angle_cross(a: Angle, b: Angle) -> int {
    a.dx * b.dy - a.dy * b.dx
}

/// The two vectors make equal polar angles: they are collinear. For
/// non-zero upward vectors that is exactly lying on one ray.
pub open spec fn spec_angle_eq(a: Angle, b: Angle) -> bool {
    angle_cross(a, b) == 0
}

/// `a` makes a strictly smaller polar angle than `b`: for non-zero upward
/// vectors the sign of the cross product decides.
pub open spec fn spec_angle_lt(a: Angle, b: Angle) -> bool {
    angle_cross(a, b) > 0
}

/// The angle made by the vector from `p1` to `p2` with the positive x-axis.
/// The caller guarantees that `p1` is below `p2`, or level with `p2` and
/// not to its right — `p1` is the pivot — so the angle lies in `[0, pi)`.
pub fn polar_angle(p1: &Point, p2: &Point) -> (a: Angle)
    requires
        p1.in_range(),
        p2.in_range(),
        lex_le(*p1, *p2),
    ensures
        a.dx == p2.x - p1.x,
        a.dy == p2.y - p1.y,
        a.in_range(),
        a.upward(),
{
    Angle { dx: p2.x - p1.x, dy: p2.y - p1.y }
}

/// Do `a` and `b` stand for the same polar angle?
pub fn angle_eq(a: &Angle, b: &Angle) -> (r: bool)
    requires
        a.in_range(),
        b.in_range(),
    ensures
        r == spec_angle_eq(*a, *b),
{
    angle_cross_exec(a, b) == 0
}

/// Is the polar angle of `a` strictly smaller than the one of `b`?
pub fn angle_lt(a: &Angle, b: &Angle) -> (r: bool)
    requires
        a.in_range(),
        b.in_range(),
    ensures
        r == spec_angle_lt(*a, *b),
{
    angle_cross_exec(a, b) > 0
}

fn angle_cross_exec(a: &Angle, b: &Angle) -> (r: i128)
    requires
        a.in_range(),
        b.in_range(),
    ensures
        r == angle_cross(*a, *b),
{
    let x1: i128 = a.dx as i128;
    let y1: i128 = a.dy as i128;
    let x2: i128 = b.dx as i128;
    let y2: i128 = b.dy as i128;
    proof {
        lemma_diff_product_bound(x1 as int, y2 as int, y1 as int, x2 as int);
    }
    x1 * y2 - y1 * x2
}

} // verus!
