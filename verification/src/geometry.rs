//! Points, displacement vectors, and the turn-admissibility test.
//!
//! Coordinates are integers and all geometric decisions the search makes
//! (comparing distances, testing the sign of a dot product) are exact:
//! distances are kept squared, which orders pairs of points the same way
//! Euclidean distances do.

use vstd::prelude::*;

verus! {

/// Largest coordinate magnitude accepted. With both coordinates within
/// this bound every squared distance and every dot product fits in `i64`.
pub const COORD_LIMIT: i64 = 1_000_000;

/// A point on the two-dimensional grid.
#[derive(Clone, Copy, Debug, PartialEq, Eq, Structural)]
pub struct Point {
    /// Identity of the point, assigned by input order; always equal to the
    /// point's position in the point store.
    pub index: usize,
    /// x position
    pub x: i64,
    /// y position
    pub y: i64,
}

impl Point {
    /// Creates a new point from an index and two coordinates.
    pub fn new(index: usize, x: i64, y: i64) -> (p: Point)
        ensures
            p == (Point { index, x, y }),
    {
        Point { index, x, y }
    }
}

/// Both coordinates lie within `COORD_LIMIT`.
pub open spec fn in_bounds(p: Point) -> bool {
    &&& -COORD_LIMIT <= p.x <= COORD_LIMIT
    &&& -COORD_LIMIT <= p.y <= COORD_LIMIT
}

/// A well-formed point store: every point records its own position as its
/// index, and every coordinate is bounded.
pub open spec fn points_ok(pts: Seq<Point>) -> bool {
    forall|i: int|
        0 <= i < pts.len() ==> (#[trigger] pts[i]).index == i && in_bounds(pts[i])
}

/// Squared Euclidean distance between two points.
pub open spec fn sq_dist(a: Point, b: Point) -> int {
    (b.x - a.x) * (b.x - a.x) + (b.y - a.y) * (b.y - a.y)
}

/// Dot product of the displacement `a -> b` with the displacement `b -> c`.
pub open spec fn turn_dot(a: Point, b: Point, c: Point) -> int {
    (b.x - a.x) * (c.x - b.x) + (b.y - a.y) * (c.y - b.y)
}

/// The turn taken at `b`, coming from `a` and going on to `c`, changes
/// heading by no more than 90 degrees.
pub open spec fn turn_ok(a: Point, b: Point, c: Point) -> bool {
    turn_dot(a, b, c) >= 0
}

/// The product of two values bounded by `k` is bounded by `k * k`.
proof fn lemma_mul_bound(a: int, b: int, k: int)
    requires
        0 <= k,
        -k <= a <= k,
        -k <= b <= k,
    ensures
        -(k * k) <= a * b <= k * k,
{
    assert(-(k * k) <= a * b <= k * k) by (nonlinear_arith)
        requires
            0 <= k,
            -k <= a <= k,
            -k <= b <= k,
    ;
}

/// A displacement between two points.
pub struct Vector2 {
    /// displacement in x direction
    pub x: i64,
    /// displacement in y direction
    pub y: i64,
}

impl Vector2 {
    /// The displacement from `b` to `a`, componentwise `a - b`.
    pub fn from(a: &Point, b: &Point) -> (v: Vector2)
        requires
            in_bounds(*a),
            in_bounds(*b),
        ensures
            v.x == a.x - b.x,
            v.y == a.y - b.y,
    {
        Vector2 { x: a.x - b.x, y: a.y - b.y }
    }

    /// Dot product of this vector with another.
    pub fn dot(&self, b: &Vector2) -> (d: i64)
        requires
            -2 * COORD_LIMIT <= self.x <= 2 * COORD_LIMIT,
            -2 * COORD_LIMIT <= self.y <= 2 * COORD_LIMIT,
            -2 * COORD_LIMIT <= b.x <= 2 * COORD_LIMIT,
            -2 * COORD_LIMIT <= b.y <= 2 * COORD_LIMIT,
        ensures
            d == self.x * b.x + self.y * b.y,
    {
        proof {
            lemma_mul_bound(self.x as int, b.x as int, 2_000_000);
            lemma_mul_bound(self.y as int, b.y as int, 2_000_000);
        }
        self.x * b.x + self.y * b.y
    }
}

/// Squared Euclidean distance between two points, computed exactly.
pub fn distance_sq(a: &Point, b: &Point) -> (d: i64)
    requires
        in_bounds(*a),
        in_bounds(*b),
    ensures
        d == sq_dist(*a, *b),
{
    let dx = b.x - a.x;
    let dy = b.y - a.y;
    proof {
        lemma_mul_bound(dx as int, dx as int, 2_000_000);
        lemma_mul_bound(dy as int, dy as int, 2_000_000);
    }
    dx * dx + dy * dy
}

} // verus!
