//! Geometric primitives: points with exact integer coordinates and the
//! sign-based orientation predicates the decomposition is built on.

use vstd::prelude::*;

verus! {

/// A point of the plane with exact integer coordinates. Equality is exact
/// coordinate equality; no tolerance is applied anywhere in the algorithm.
#[derive(Clone, Copy, PartialEq, Eq, Structural, Debug)]
pub struct Point {
    pub x: i32,
    pub y: i32,
}

/// The 2D cross product of the vectors (p2 - p1) and (p3 - p2): positive for
/// a left turn at p2, negative for a right turn, zero for collinear points.
pub open spec fn scross(p1: Point, p2: Point, p3: Point) -> int {
    (p2.x - p1.x) * (p3.y - p2.y) - (p2.y - p1.y) * (p3.x - p2.x)
}

/// Whether pt lies inside or on the boundary of the triangle (v1, v2, v3):
/// the three edge orientation tests all agree in sign.
pub open spec fn spec_point_in_triangle(pt: Point, v1: Point, v2: Point, v3: Point) -> bool {
    ||| (scross(v1, v2, pt) >= 0 && scross(v2, v3, pt) >= 0 && scross(v3, v1, pt) >= 0)
    ||| (scross(v1, v2, pt) <= 0 && scross(v2, v3, pt) <= 0 && scross(v3, v1, pt) <= 0)
}

proof fn lemma_mul_bound(a: int, b: int, m: int)
    requires
        0 <= m,
        -m <= a <= m,
        -m <= b <= m,
    ensures
        -(m * m) <= a * b <= m * m,
{
    assert(-(m * m) <= a * b <= m * m) by (nonlinear_arith)
        requires
            0 <= m,
            -m <= a <= m,
            -m <= b <= m,
    ;
}

/// The cross product is invariant under cyclic rotation of its arguments; for
/// a triangle it equals twice the triangle's signed area.
pub proof fn lemma_scross_cyclic(a: Point, b: Point, c: Point)
    ensures
        scross(a, b, c) == scross(b, c, a),
{
    assert(scross(a, b, c) == scross(b, c, a)) by (nonlinear_arith)
        requires
            scross(a, b, c) == (b.x - a.x) * (c.y - b.y) - (b.y - a.y) * (c.x - b.x),
            scross(b, c, a) == (c.x - b.x) * (a.y - c.y) - (c.y - b.y) * (a.x - c.x),
    ;
}

/// Compute the cross product of three points exactly; i128 arithmetic cannot
/// overflow on differences and products of i32 coordinates.
pub fn cross_product(p1: Point, p2: Point, p3: Point) -> (r: i128)
    ensures
        r == scross(p1, p2, p3),
{
    let dx1: i64 = p2.x as i64 - p1.x as i64;
    let dy2: i64 = p3.y as i64 - p2.y as i64;
    let dy1: i64 = p2.y as i64 - p1.y as i64;
    let dx2: i64 = p3.x as i64 - p2.x as i64;
    proof {
        lemma_mul_bound(dx1 as int, dy2 as int, 0x1_0000_0000);
        lemma_mul_bound(dy1 as int, dx2 as int, 0x1_0000_0000);
    }
    (dx1 as i128) * (dy2 as i128) - (dy1 as i128) * (dx2 as i128)
}

/// A vertex turn is convex (under counter-clockwise winding) when the cross
/// product is non-negative; collinear points deliberately count as convex.
pub fn is_convex(p1: Point, p2: Point, p3: Point) -> (r: bool)
    ensures
        r == (scross(p1, p2, p3) >= 0),
{
    cross_product(p1, p2, p3) >= 0
}

/// Test whether a point lies inside the triangle (v1, v2, v3) or on its
/// boundary: all three edge cross products agree in sign.
pub fn point_in_triangle(pt: Point, v1: Point, v2: Point, v3: Point) -> (r: bool)
    ensures
        r == spec_point_in_triangle(pt, v1, v2, v3),
{
    let d1 = cross_product(v1, v2, pt);
    let d2 = cross_product(v2, v3, pt);
    let d3 = cross_product(v3, v1, pt);
    (d1 >= 0 && d2 >= 0 && d3 >= 0) || (d1 <= 0 && d2 <= 0 && d3 <= 0)
}

} // verus!
