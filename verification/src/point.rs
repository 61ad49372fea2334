//! Cell coordinates and the squared-distance metric used for all costs.

use vstd::prelude::*;

verus! {

/// A position on the grid: `x` counts columns, `y` counts rows.
#[derive(Clone, Copy, Debug, PartialEq, Eq, Structural)]
pub struct Point {
    pub x: i32,
    pub y: i32,
}

/// Squared Euclidean distance between two positions, as a mathematical integer.
pub open spec fn squared_distance(a: Point, b: Point) -> int {
    (a.x - b.x) * (a.x - b.x) + (a.y - b.y) * (a.y - b.y)
}

impl Point {
    pub fn new(x: i32, y: i32) -> (p: Point)
        ensures
            p.x == x,
            p.y == y,
    {
        Point { x, y }
    }

    /// Two distinct positions that differ by at most one in each coordinate,
    /// i.e. `other` lies in the 3x3 block around `self` and is not `self`.
    pub open spec fn adjacent(self, other: Point) -> bool {
        &&& self != other
        &&& -1 <= self.x - other.x <= 1
        &&& -1 <= self.y - other.y <= 1
    }

    /// Adjacent along exactly one axis.
    pub open spec fn orthogonal_to(self, other: Point) -> bool {
        self.adjacent(other) && (self.x == other.x || self.y == other.y)
    }

    /// Adjacent along both axes at once.
    pub open spec fn diagonal_to(self, other: Point) -> bool {
        self.adjacent(other) && self.x != other.x && self.y != other.y
    }
}

/// A move to an orthogonal neighbour costs 1 and a move to a diagonal
/// neighbour costs 2; there is no other cost between adjacent positions.
pub proof fn lemma_adjacent_distance(a: Point, b: Point)
    requires
        a.adjacent(b),
    ensures
        a.orthogonal_to(b) <==> squared_distance(a, b) == 1,
        a.diagonal_to(b) <==> squared_distance(a, b) == 2,
        a.orthogonal_to(b) || a.diagonal_to(b),
{
    let dx = a.x - b.x;
    let dy = a.y - b.y;
    assert(dx * dx == (if dx == 0 { 0int } else { 1int })) by (nonlinear_arith)
        requires
            -1 <= dx <= 1,
    ;
    assert(dy * dy == (if dy == 0 { 0int } else { 1int })) by (nonlinear_arith)
        requires
            -1 <= dy <= 1,
    ;
}

/// The metric is symmetric.
pub proof fn lemma_distance_symmetric(a: Point, b: Point)
    ensures
        squared_distance(a, b) == squared_distance(b, a),
{
    assert((a.x - b.x) * (a.x - b.x) == (b.x - a.x) * (b.x - a.x)) by (nonlinear_arith);
    assert((a.y - b.y) * (a.y - b.y) == (b.y - a.y) * (b.y - a.y)) by (nonlinear_arith);
}

/// Squared Euclidean distance between `a` and `b`.
pub fn dist_sq(a: &Point, b: &Point) -> (d: i64)
    requires
        squared_distance(*a, *b) <= i64::MAX,
    ensures
        d == squared_distance(*a, *b),
{
    let dx: i64 = a.x as i64 - b.x as i64;
    let dy: i64 = a.y as i64 - b.y as i64;
    assert(0 <= dx * dx && 0 <= dy * dy) by (nonlinear_arith);
    dx * dx + dy * dy
}

} // verus!
