//! The polygon ring type and the cyclic convexity test.

use vstd::prelude::*;
use crate::geometry::{Point, scross, is_convex};

verus! {

/// A polygon boundary stored as a closed ring: an ordered vertex list whose
/// last point repeats the first. Winding is assumed counter-clockwise.
#[derive(Debug)]
pub struct Polygon {
    pub ring: Vec<Point>,
}

impl View for Polygon {
    type V = Seq<Point>;

    open spec fn view(&self) -> Seq<Point> {
        self.ring@
    }
}

/// Close a vertex sequence into a ring: append the first point unless the
/// sequence is empty or already closed.
pub open spec fn spec_close_ring(s: Seq<Point>) -> Seq<Point> {
    if s.len() == 0 || s.first() == s.last() {
        s
    } else {
        s.push(s.first())
    }
}

impl Polygon {
    /// Build a polygon from an ordered vertex list, closing the ring if the
    /// last point does not already repeat the first.
    pub fn new(points: Vec<Point>) -> (p: Polygon)
        ensures
            p@ == spec_close_ring(points@),
    {
        let mut ring = points;
        if ring.len() > 0 && ring[0] != ring[ring.len() - 1] {
            let first = ring[0];
            ring.push(first);
        }
        Polygon { ring }
    }
}

/// The working vertex list of a ring: the stored coordinates with the
/// closing duplicate removed, if one is present.
pub open spec fn open_ring(s: Seq<Point>) -> Seq<Point> {
    if s.len() >= 2 && s.first() == s.last() {
        s.drop_last()
    } else {
        s
    }
}

/// The index of the cyclic predecessor of position i in a ring of the given
/// length.
pub open spec fn prev_idx(len: int, i: int) -> int {
    if i == 0 {
        len - 1
    } else {
        i - 1
    }
}

/// The index of the cyclic successor of position i in a ring of the given
/// length.
pub open spec fn next_idx(len: int, i: int) -> int {
    if i == len - 1 {
        0
    } else {
        i + 1
    }
}

/// The turn at position i of the ring is convex: the cross product against
/// the cyclic neighbours is non-negative.
pub open spec fn vertex_convex_at(s: Seq<Point>, i: int) -> bool {
    scross(s[prev_idx(s.len() as int, i)], s[i], s[next_idx(s.len() as int, i)]) >= 0
}

/// A ring is convex when every boundary vertex is a convex turn. The turns
/// are taken on the working vertex list — the closing duplicate stripped,
/// with true wraparound — so the corner at the ring's first vertex is tested
/// against its real cyclic neighbours like every other.
pub open spec fn spec_convex_ring(s: Seq<Point>) -> bool {
    forall|i: int| 0 <= i < open_ring(s).len() ==> vertex_convex_at(open_ring(s), i)
}

/// Check convexity of a polygon by testing every boundary vertex against its
/// cyclic predecessor and successor, the closing duplicate ignored;
/// collinear turns pass.
pub fn is_polygon_convex(polygon: &Polygon) -> (r: bool)
    ensures
        r == spec_convex_ring(polygon@),
{
    let stored = polygon.ring.len();
    let len = if stored >= 2 && polygon.ring[0] == polygon.ring[stored - 1] {
        stored - 1
    } else {
        stored
    };
    let ghost w = open_ring(polygon@);
    proof {
        assert(w =~= polygon@.take(len as int));
    }
    let mut i: usize = 0;
    while i < len
        invariant
            len <= polygon@.len(),
            w == open_ring(polygon@),
            w.len() == len,
            forall|q: int| 0 <= q < len ==> w[q] == polygon@[q],
            i <= len,
            forall|k: int| 0 <= k < i ==> vertex_convex_at(w, k),
        decreases len - i,
    {
        let prev = if i == 0 { len - 1 } else { i - 1 };
        let next = if i + 1 == len { 0 } else { i + 1 };
        if !is_convex(polygon.ring[prev], polygon.ring[i], polygon.ring[next]) {
            proof {
                assert(!vertex_convex_at(w, i as int));
            }
            return false;
        }
        i = i + 1;
    }
    true
}

} // verus!
