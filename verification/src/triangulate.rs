//! Ear-clipping triangulation of a simple polygon: repeatedly clip the first
//! convex vertex whose triangle contains no other remaining vertex, until
//! only one triangle is left.

use vstd::prelude::*;
use crate::geometry::{Point, scross, spec_point_in_triangle, is_convex, point_in_triangle};
use crate::geometry::lemma_scross_cyclic;
use crate::polygon::{Polygon, open_ring, prev_idx, next_idx, spec_convex_ring, vertex_convex_at};
use crate::errors::DecompError;

verus! {

/// A triangle expressed as a closed four-point ring.
pub open spec fn tri_ring(a: Point, b: Point, c: Point) -> Seq<Point> {
    seq![a, b, c, a]
}

/// The views of a list of polygons.
pub open spec fn tri_views(ps: Seq<Polygon>) -> Seq<Seq<Point>> {
    ps.map_values(|q: Polygon| q@)
}

/// No vertex of the working list other than the three given positions lies
/// inside (or on) the triangle they form.
pub open spec fn spec_is_ear(s: Seq<Point>, p: int, c: int, n: int) -> bool {
    forall|k: int|
        0 <= k < s.len() && k != p && k != c && k != n
            ==> !spec_point_in_triangle(s[k], s[p], s[c], s[n])
}

/// Position i of the working list can be clipped: the turn there is convex
/// and the triangle with its cyclic neighbours is an ear.
pub open spec fn clip_candidate(s: Seq<Point>, i: int) -> bool {
    let p = prev_idx(s.len() as int, i);
    let n = next_idx(s.len() as int, i);
    scross(s[p], s[i], s[n]) >= 0 && spec_is_ear(s, p, i, n)
}

/// The least clippable position at or after i, scanning in vertex order.
pub open spec fn first_clip_from(s: Seq<Point>, i: int) -> Option<int>
    decreases s.len() - i,
{
    if i < 0 || i >= s.len() {
        None
    } else if clip_candidate(s, i) {
        Some(i)
    } else {
        first_clip_from(s, i + 1)
    }
}

/// The triangles produced by ear clipping on the working list s, in emission
/// order, or None when some pass over more than three vertices finds no ear.
pub open spec fn spec_triangulate(s: Seq<Point>) -> Option<Seq<Seq<Point>>>
    decreases s.len(),
{
    if s.len() < 3 {
        None
    } else if s.len() == 3 {
        Some(seq![tri_ring(s[0], s[1], s[2])])
    } else {
        match first_clip_from(s, 0) {
            None => None,
            Some(i) => if 0 <= i < s.len() {
                let t = tri_ring(
                    s[prev_idx(s.len() as int, i)],
                    s[i],
                    s[next_idx(s.len() as int, i)],
                );
                match spec_triangulate(s.remove(i)) {
                    None => None,
                    Some(rest) => Some(seq![t] + rest),
                }
            } else {
                None
            },
        }
    }
}

proof fn lemma_first_clip_from_some(s: Seq<Point>, j: int)
    requires
        first_clip_from(s, j) is Some,
    ensures
        j <= first_clip_from(s, j)->Some_0 < s.len(),
        clip_candidate(s, first_clip_from(s, j)->Some_0),
    decreases s.len() - j,
{
    if 0 <= j < s.len() && !clip_candidate(s, j) {
        lemma_first_clip_from_some(s, j + 1);
    }
}

proof fn lemma_first_clip_from_found(s: Seq<Point>, j: int, i: int)
    requires
        0 <= j <= i < s.len(),
        clip_candidate(s, i),
        forall|k: int| j <= k < i ==> !clip_candidate(s, k),
    ensures
        first_clip_from(s, j) == Some(i),
    decreases i - j,
{
    if j < i {
        lemma_first_clip_from_found(s, j + 1, i);
    }
}

proof fn lemma_first_clip_from_none(s: Seq<Point>, j: int)
    requires
        0 <= j,
        forall|k: int| j <= k < s.len() ==> !clip_candidate(s, k),
    ensures
        first_clip_from(s, j) == None::<int>,
    decreases s.len() - j,
{
    if j < s.len() {
        lemma_first_clip_from_none(s, j + 1);
    }
}

/// Every triangle of a triangulation is a closed four-point ring; there are
/// exactly two fewer triangles than working vertices; and every triangle but
/// the final one was clipped at a convex turn.
pub proof fn lemma_spec_triangulate_props(s: Seq<Point>)
    requires
        spec_triangulate(s) is Some,
    ensures
        3 <= s.len(),
        spec_triangulate(s)->Some_0.len() == s.len() - 2,
        forall|j: int|
            0 <= j < spec_triangulate(s)->Some_0.len()
                ==> (#[trigger] spec_triangulate(s)->Some_0[j]).len() == 4
                    && spec_triangulate(s)->Some_0[j][3] == spec_triangulate(s)->Some_0[j][0],
        forall|j: int|
            0 <= j < spec_triangulate(s)->Some_0.len() - 1
                ==> scross(
                    #[trigger] spec_triangulate(s)->Some_0[j][0],
                    spec_triangulate(s)->Some_0[j][1],
                    spec_triangulate(s)->Some_0[j][2],
                ) >= 0,
    decreases s.len(),
{
    let ts = spec_triangulate(s)->Some_0;
    if s.len() == 3 {
        assert(ts == seq![tri_ring(s[0], s[1], s[2])]);
        assert(ts[0].len() == 4 && ts[0][3] == ts[0][0]);
    } else {
        let i = first_clip_from(s, 0)->Some_0;
        lemma_first_clip_from_some(s, 0);
        let t = tri_ring(s[prev_idx(s.len() as int, i)], s[i], s[next_idx(s.len() as int, i)]);
        let rest = spec_triangulate(s.remove(i))->Some_0;
        lemma_spec_triangulate_props(s.remove(i));
        assert(ts == seq![t] + rest);
        assert(ts[0] == t);
        assert forall|j: int| 0 <= j < ts.len() implies (#[trigger] ts[j]).len() == 4
            && ts[j][3] == ts[j][0] by {
            if j > 0 {
                assert(ts[j] == rest[j - 1]);
            }
        }
        assert forall|j: int| 0 <= j < ts.len() - 1 implies scross(
            #[trigger] ts[j][0],
            ts[j][1],
            ts[j][2],
        ) >= 0 by {
            if j == 0 {
                assert(clip_candidate(s, i));
            } else {
                assert(ts[j] == rest[j - 1]);
            }
        }
    }
}

/// Every triangle of a triangulation except possibly the final one is a
/// convex closed ring: each was clipped at a turn the ear test found convex.
/// The final triangle is the unchecked remainder of the working list; it is
/// convex for every counter-clockwise simple input, but not for arbitrary
/// (invalid) input.
pub proof fn lemma_triangulation_triangles_convex(s: Seq<Point>)
    requires
        spec_triangulate(s) is Some,
    ensures
        forall|j: int|
            0 <= j < spec_triangulate(s)->Some_0.len() - 1 ==> spec_convex_ring(
                #[trigger] spec_triangulate(s)->Some_0[j],
            ),
{
    let ts = spec_triangulate(s)->Some_0;
    lemma_spec_triangulate_props(s);
    assert forall|j: int| 0 <= j < ts.len() - 1 implies spec_convex_ring(#[trigger] ts[j]) by {
        lemma_tri_ring_convex(ts[j][0], ts[j][1], ts[j][2]);
        assert(ts[j] =~= tri_ring(ts[j][0], ts[j][1], ts[j][2]));
    }
}

/// A triangle ring clipped at a convex turn is convex: the three cyclic
/// rotations of a triangle's cross product are equal, so every one of its
/// three boundary vertices turns the same way.
pub proof fn lemma_tri_ring_convex(a: Point, b: Point, c: Point)
    requires
        scross(a, b, c) >= 0,
    ensures
        spec_convex_ring(tri_ring(a, b, c)),
{
    let w = open_ring(tri_ring(a, b, c));
    assert(w =~= seq![a, b, c]);
    lemma_scross_cyclic(a, b, c);
    lemma_scross_cyclic(b, c, a);
    assert forall|i: int| 0 <= i < w.len() implies vertex_convex_at(w, i) by {
        if i == 0 {
            assert(w[prev_idx(3, 0)] == c && w[0] == a && w[next_idx(3, 0)] == b);
            assert(scross(c, a, b) == scross(a, b, c));
        } else if i == 1 {
            assert(w[prev_idx(3, 1)] == a && w[1] == b && w[next_idx(3, 1)] == c);
        } else {
            assert(w[prev_idx(3, 2)] == b && w[2] == c && w[next_idx(3, 2)] == a);
            assert(scross(b, c, a) == scross(a, b, c));
        }
    }
}

/// Check that the triangle at positions (p, c, n) of the working list is an
/// ear: no other remaining vertex lies inside it or on its boundary.
pub fn is_ear(coords: &Vec<Point>, prev_i: usize, curr_i: usize, next_i: usize) -> (r: bool)
    requires
        prev_i < coords@.len(),
        curr_i < coords@.len(),
        next_i < coords@.len(),
    ensures
        r == spec_is_ear(coords@, prev_i as int, curr_i as int, next_i as int),
{
    let p1 = coords[prev_i];
    let p2 = coords[curr_i];
    let p3 = coords[next_i];
    let mut k: usize = 0;
    while k < coords.len()
        invariant
            k <= coords@.len(),
            prev_i < coords@.len(),
            curr_i < coords@.len(),
            next_i < coords@.len(),
            p1 == coords@[prev_i as int],
            p2 == coords@[curr_i as int],
            p3 == coords@[next_i as int],
            forall|m: int|
                0 <= m < k && m != prev_i as int && m != curr_i as int && m != next_i as int
                    ==> !spec_point_in_triangle(coords@[m], p1, p2, p3),
        decreases coords@.len() - k,
    {
        if k != prev_i && k != curr_i && k != next_i {
            if point_in_triangle(coords[k], p1, p2, p3) {
                return false;
            }
        }
        k = k + 1;
    }
    true
}

/// Scan the working list in order for the first clippable position.
fn find_ear_vertex(coords: &Vec<Point>) -> (r: Option<usize>)
    ensures
        match r {
            Some(i) => i < coords@.len() && first_clip_from(coords@, 0) == Some(i as int),
            None => first_clip_from(coords@, 0) == None::<int>,
        },
{
    let len = coords.len();
    let mut i: usize = 0;
    while i < len
        invariant
            len == coords@.len(),
            i <= len,
            forall|k: int| 0 <= k < i ==> !clip_candidate(coords@, k),
        decreases len - i,
    {
        let prev = if i == 0 { len - 1 } else { i - 1 };
        let next = if i + 1 == len { 0 } else { i + 1 };
        if is_convex(coords[prev], coords[i], coords[next]) {
            if is_ear(coords, prev, i, next) {
                proof {
                    assert(clip_candidate(coords@, i as int));
                    lemma_first_clip_from_found(coords@, 0, i as int);
                }
                return Some(i);
            }
        }
        proof {
            assert(!clip_candidate(coords@, i as int));
        }
        i = i + 1;
    }
    proof {
        lemma_first_clip_from_none(coords@, 0);
    }
    None
}

/// Prepend an already emitted triangle list to the outcome of triangulating
/// the rest of the working list.
pub open spec fn opt_prepend(pre: Seq<Seq<Point>>, o: Option<Seq<Seq<Point>>>) -> Option<
    Seq<Seq<Point>>,
> {
    match o {
        None => None,
        Some(ts) => Some(pre + ts),
    }
}

proof fn lemma_tri_views_push(ps: Seq<Polygon>, p: Polygon)
    ensures
        tri_views(ps.push(p)) == tri_views(ps).push(p@),
{
    assert(tri_views(ps.push(p)) =~= tri_views(ps).push(p@));
}

/// Triangulate a simple polygon by ear clipping. Fails when fewer than four
/// coordinates are stored, or when a pass over more than three remaining
/// vertices finds no ear; otherwise returns exactly the triangles of
/// `spec_triangulate` on the working list, in emission order.
pub fn triangulate(polygon: &Polygon) -> (r: Result<Vec<Polygon>, DecompError>)
    ensures
        polygon@.len() < 4 <==> r == Err::<Vec<Polygon>, DecompError>(
            DecompError::InsufficientVertices,
        ),
        polygon@.len() >= 4 ==> match spec_triangulate(open_ring(polygon@)) {
            Some(ts) => match r {
                Ok(tris) => tri_views(tris@) == ts,
                Err(_) => false,
            },
            None => r == Err::<Vec<Polygon>, DecompError>(DecompError::NoEarFound),
        },
{
    if polygon.ring.len() < 4 {
        return Err(DecompError::InsufficientVertices);
    }
    let mut coords: Vec<Point> = Vec::new();
    let mut ci: usize = 0;
    while ci < polygon.ring.len()
        invariant
            ci <= polygon@.len(),
            coords@ == polygon@.take(ci as int),
        decreases polygon@.len() - ci,
    {
        coords.push(polygon.ring[ci]);
        proof {
            assert(polygon@.take(ci + 1) =~= polygon@.take(ci as int).push(polygon@[ci as int]));
        }
        ci = ci + 1;
    }
    proof {
        assert(coords@ =~= polygon@);
    }
    if coords[0] == coords[coords.len() - 1] {
        coords.pop();
        proof {
            assert(coords@ =~= open_ring(polygon@));
        }
    }
    let ghost w = coords@;
    assert(coords@ == open_ring(polygon@));
    let mut triangles: Vec<Polygon> = Vec::new();
    while coords.len() > 3
        invariant
            3 <= coords@.len(),
            polygon@.len() >= 4,
            w == open_ring(polygon@),
            spec_triangulate(w) == opt_prepend(tri_views(triangles@), spec_triangulate(coords@)),
        decreases coords@.len(),
    {
        match find_ear_vertex(&coords) {
            Some(i) => {
                let len = coords.len();
                let prev = if i == 0 { len - 1 } else { i - 1 };
                let next = if i + 1 == len { 0 } else { i + 1 };
                let p_prev = coords[prev];
                let p_curr = coords[i];
                let p_next = coords[next];
                let ghost before = coords@;
                let ghost tvs = tri_views(triangles@);
                let mut ring: Vec<Point> = Vec::new();
                ring.push(p_prev);
                ring.push(p_curr);
                ring.push(p_next);
                ring.push(p_prev);
                let ghost t = tri_ring(p_prev, p_curr, p_next);
                assert(ring@ =~= t);
                let ear = Polygon { ring };
                proof {
                    lemma_tri_views_push(triangles@, ear);
                }
                triangles.push(ear);
                coords.remove(i);
                proof {
                    assert(prev as int == prev_idx(before.len() as int, i as int));
                    assert(next as int == next_idx(before.len() as int, i as int));
                    match spec_triangulate(coords@) {
                        None => {
                            assert(spec_triangulate(before) == None::<Seq<Seq<Point>>>);
                        },
                        Some(rest) => {
                            assert(spec_triangulate(before) == Some(seq![t] + rest));
                            assert(tvs + (seq![t] + rest) =~= tvs.push(t) + rest);
                        },
                    }
                }
            },
            None => {
                proof {
                    assert(spec_triangulate(coords@) == None::<Seq<Seq<Point>>>);
                }
                return Err(DecompError::NoEarFound);
            },
        }
    }
    let ghost tvs = tri_views(triangles@);
    let c0 = coords[0];
    let c1 = coords[1];
    let c2 = coords[2];
    let mut ring: Vec<Point> = Vec::new();
    ring.push(c0);
    ring.push(c1);
    ring.push(c2);
    ring.push(c0);
    assert(ring@ =~= tri_ring(c0, c1, c2));
    let last = Polygon { ring };
    proof {
        lemma_tri_views_push(triangles@, last);
        assert(spec_triangulate(coords@) == Some(seq![tri_ring(c0, c1, c2)]));
        assert(tvs + seq![tri_ring(c0, c1, c2)] =~= tvs.push(tri_ring(c0, c1, c2)));
    }
    triangles.push(last);
    Ok(triangles)
}

} // verus!
