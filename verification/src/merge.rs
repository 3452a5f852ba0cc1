//! Splicing two triangles together across a shared edge: rotate each ring to
//! start just after the shared edge, concatenate, drop the shared endpoints
//! from the second ring's contribution, re-close, and collapse consecutive
//! duplicate points.

use vstd::prelude::*;
use crate::geometry::Point;
use crate::polygon::Polygon;
use crate::shared_edges::{Edge, tri_has_edge, tri_edge, spec_canon};
use crate::errors::DecompError;

verus! {

/// The boundary step from position i matches the unordered edge (a, b) in
/// either direction.
pub open spec fn edge_match_at(s: Seq<Point>, i: int, a: Point, b: Point) -> bool {
    (s[i] == a && s[i + 1] == b) || (s[i] == b && s[i + 1] == a)
}

/// The least boundary position at or after j whose step matches the edge
/// (a, b).
pub open spec fn first_edge_match_from(s: Seq<Point>, a: Point, b: Point, j: int) -> Option<int>
    decreases s.len() - j,
{
    if j < 0 || j + 1 >= s.len() {
        None
    } else if edge_match_at(s, j, a, b) {
        Some(j)
    } else {
        first_edge_match_from(s, a, b, j + 1)
    }
}

/// The least boundary position whose step matches the edge (a, b).
pub open spec fn first_edge_match(s: Seq<Point>, a: Point, b: Point) -> Option<int> {
    first_edge_match_from(s, a, b, 0)
}

proof fn lemma_fem_found(s: Seq<Point>, a: Point, b: Point, j: int, i: int)
    requires
        0 <= j <= i,
        i + 1 < s.len(),
        edge_match_at(s, i, a, b),
        forall|k: int| j <= k < i ==> !edge_match_at(s, k, a, b),
    ensures
        first_edge_match_from(s, a, b, j) == Some(i),
    decreases i - j,
{
    if j < i {
        lemma_fem_found(s, a, b, j + 1, i);
    }
}

proof fn lemma_fem_none(s: Seq<Point>, a: Point, b: Point, j: int)
    requires
        0 <= j,
        forall|k: int| j <= k && k + 1 < s.len() ==> !edge_match_at(s, k, a, b),
    ensures
        first_edge_match_from(s, a, b, j) == None::<int>,
    decreases s.len() - j,
{
    if j + 1 < s.len() {
        lemma_fem_none(s, a, b, j + 1);
    }
}

/// A successful edge search returns an in-range position that matches.
pub proof fn lemma_fem_range(s: Seq<Point>, a: Point, b: Point, j: int)
    requires
        first_edge_match_from(s, a, b, j) is Some,
    ensures
        j <= first_edge_match_from(s, a, b, j)->Some_0,
        first_edge_match_from(s, a, b, j)->Some_0 + 1 < s.len(),
        edge_match_at(s, first_edge_match_from(s, a, b, j)->Some_0, a, b),
    decreases s.len() - j,
{
    if !(j < 0 || j + 1 >= s.len()) && !edge_match_at(s, j, a, b) {
        lemma_fem_range(s, a, b, j + 1);
    }
}

proof fn lemma_fem_exists(s: Seq<Point>, a: Point, b: Point, j: int)
    requires
        0 <= j,
        exists|i: int| j <= i && i + 1 < s.len() && edge_match_at(s, i, a, b),
    ensures
        first_edge_match_from(s, a, b, j) is Some,
    decreases s.len() - j,
{
    if !edge_match_at(s, j, a, b) {
        lemma_fem_exists(s, a, b, j + 1);
    }
}

/// A closed triangle ring that carries the canonical edge e on its boundary
/// matches e at one of its boundary steps.
pub proof fn lemma_tri_has_edge_match(t: Seq<Point>, e: Edge)
    requires
        t.len() == 4,
        t[3] == t[0],
        tri_has_edge(t, e),
    ensures
        first_edge_match(t, e.a, e.b) is Some,
{
    if tri_edge(t, 0) == e {
        assert(edge_match_at(t, 0, e.a, e.b));
    } else if tri_edge(t, 1) == e {
        assert(edge_match_at(t, 1, e.a, e.b));
    } else {
        assert(spec_canon(t[2], t[0]) == e);
        assert(edge_match_at(t, 2, e.a, e.b));
    }
    lemma_fem_exists(t, e.a, e.b, 0);
}

/// The vertex sequence rotated to start immediately after position i.
pub open spec fn spec_rotate(s: Seq<Point>, i: int) -> Seq<Point> {
    s.subrange(i + 1, s.len() as int) + s.subrange(0, i + 1)
}

/// The sequence with every point equal to either endpoint of the shared edge
/// removed.
pub open spec fn spec_drop_endpoints(s: Seq<Point>, e: Edge) -> Seq<Point>
    decreases s.len(),
{
    if s.len() == 0 {
        Seq::empty()
    } else {
        spec_drop_endpoints(s.drop_last(), e) + (if s.last() != e.a && s.last() != e.b {
            seq![s.last()]
        } else {
            Seq::empty()
        })
    }
}

/// The sequence with immediately consecutive duplicate points collapsed to
/// their first occurrence.
pub open spec fn spec_dedup(s: Seq<Point>) -> Seq<Point>
    decreases s.len(),
{
    if s.len() == 0 {
        Seq::empty()
    } else if s.len() >= 2 && s.last() == s[s.len() - 2] {
        spec_dedup(s.drop_last())
    } else {
        spec_dedup(s.drop_last()).push(s.last())
    }
}

/// The ring that results from merging two closed rings across the shared
/// edge e, or None when e cannot be located on one of the boundaries.
pub open spec fn spec_merge_rings(c1: Seq<Point>, c2: Seq<Point>, e: Edge) -> Option<Seq<Point>> {
    match (first_edge_match(c1, e.a, e.b), first_edge_match(c2, e.a, e.b)) {
        (Some(i1), Some(i2)) => {
            let joined = spec_rotate(c1, i1) + spec_drop_endpoints(spec_rotate(c2, i2), e);
            Some(spec_dedup(joined.push(joined[0])))
        },
        _ => None,
    }
}

/// Find the first boundary step of a ring that matches the shared edge in
/// either direction, scanning consecutive vertex pairs in order.
pub fn find_shared_edge(coords: &Vec<Point>, shared_start: Point, shared_end: Point) -> (r: Option<
    usize,
>)
    ensures
        match r {
            Some(i) => first_edge_match(coords@, shared_start, shared_end) == Some(i as int),
            None => first_edge_match(coords@, shared_start, shared_end) == None::<int>,
        },
{
    let len = coords.len();
    let mut i: usize = 0;
    while i < len && i + 1 < len
        invariant
            len == coords@.len(),
            i <= len,
            forall|k: int| 0 <= k < i ==> !edge_match_at(coords@, k, shared_start, shared_end),
        decreases len - i,
    {
        let c0 = coords[i];
        let c1 = coords[i + 1];
        if (c0 == shared_start && c1 == shared_end) || (c0 == shared_end && c1 == shared_start) {
            proof {
                lemma_fem_found(coords@, shared_start, shared_end, 0, i as int);
            }
            return Some(i);
        }
        proof {
            assert(!edge_match_at(coords@, i as int, shared_start, shared_end));
        }
        i = i + 1;
    }
    proof {
        lemma_fem_none(coords@, shared_start, shared_end, 0);
    }
    None
}

/// Rotate the vertex list to start immediately after the boundary step at
/// the given position, wrapping around the end of the list.
pub fn reorder_polygon(coords: &Vec<Point>, shared_edge_idx: usize) -> (r: Vec<Point>)
    requires
        shared_edge_idx < coords@.len(),
    ensures
        r@ == spec_rotate(coords@, shared_edge_idx as int),
{
    let len = coords.len();
    let mut out: Vec<Point> = Vec::new();
    let mut i: usize = shared_edge_idx + 1;
    while i < len
        invariant
            len == coords@.len(),
            shared_edge_idx < len,
            shared_edge_idx + 1 <= i <= len,
            out@ == coords@.subrange(shared_edge_idx + 1, i as int),
        decreases len - i,
    {
        out.push(coords[i]);
        proof {
            assert(coords@.subrange(shared_edge_idx + 1, i + 1) =~= coords@.subrange(
                shared_edge_idx + 1,
                i as int,
            ).push(coords@[i as int]));
        }
        i = i + 1;
    }
    let mut j: usize = 0;
    while j < shared_edge_idx + 1
        invariant
            len == coords@.len(),
            shared_edge_idx < len,
            j <= shared_edge_idx + 1,
            out@ == coords@.subrange(shared_edge_idx + 1, len as int) + coords@.subrange(
                0,
                j as int,
            ),
        decreases shared_edge_idx + 1 - j,
    {
        out.push(coords[j]);
        proof {
            assert(coords@.subrange(shared_edge_idx + 1, len as int) + coords@.subrange(
                0,
                j + 1,
            ) =~= (coords@.subrange(shared_edge_idx + 1, len as int) + coords@.subrange(
                0,
                j as int,
            )).push(coords@[j as int]));
        }
        j = j + 1;
    }
    out
}

fn dedup_consecutive(v: Vec<Point>) -> (r: Vec<Point>)
    ensures
        r@ == spec_dedup(v@),
{
    let mut out: Vec<Point> = Vec::new();
    let mut i: usize = 0;
    while i < v.len()
        invariant
            i <= v@.len(),
            out@ == spec_dedup(v@.take(i as int)),
            i > 0 ==> out@.len() > 0 && out@.last() == v@[i - 1],
        decreases v@.len() - i,
    {
        let keep = if out.len() == 0 {
            true
        } else {
            let last = out[out.len() - 1];
            last != v[i]
        };
        proof {
            assert(v@.take(i + 1).drop_last() =~= v@.take(i as int));
            assert(v@.take(i + 1).last() == v@[i as int]);
        }
        if keep {
            out.push(v[i]);
        }
        i = i + 1;
    }
    proof {
        assert(v@.take(v@.len() as int) =~= v@);
    }
    out
}

/// Merge two polygons along a shared edge, preserving the winding order and
/// removing consecutive duplicate points. Fails with EdgeNotFound when the
/// shared edge does not occur on one of the two boundaries.
pub fn merge_polygons(p1: &Polygon, p2: &Polygon, shared_edge: &Edge) -> (r: Result<
    Polygon,
    DecompError,
>)
    ensures
        match r {
            Ok(mp) => spec_merge_rings(p1@, p2@, *shared_edge) is Some && mp@ == spec_merge_rings(
                p1@,
                p2@,
                *shared_edge,
            )->Some_0,
            Err(er) => spec_merge_rings(p1@, p2@, *shared_edge) is None && er
                == DecompError::EdgeNotFound,
        },
{
    let shared_idx1 = match find_shared_edge(&p1.ring, shared_edge.a, shared_edge.b) {
        Some(i) => i,
        None => {
            return Err(DecompError::EdgeNotFound);
        },
    };
    let shared_idx2 = match find_shared_edge(&p2.ring, shared_edge.a, shared_edge.b) {
        Some(i) => i,
        None => {
            return Err(DecompError::EdgeNotFound);
        },
    };
    proof {
        lemma_fem_range(p1@, shared_edge.a, shared_edge.b, 0);
        lemma_fem_range(p2@, shared_edge.a, shared_edge.b, 0);
    }
    let mut merged = reorder_polygon(&p1.ring, shared_idx1);
    let rot2 = reorder_polygon(&p2.ring, shared_idx2);
    let ghost r1 = merged@;
    let mut t: usize = 0;
    while t < rot2.len()
        invariant
            t <= rot2@.len(),
            merged@ == r1 + spec_drop_endpoints(rot2@.take(t as int), *shared_edge),
        decreases rot2@.len() - t,
    {
        let c = rot2[t];
        proof {
            assert(rot2@.take(t + 1).drop_last() =~= rot2@.take(t as int));
            assert(rot2@.take(t + 1).last() == rot2@[t as int]);
            if c != shared_edge.a && c != shared_edge.b {
                assert(r1 + spec_drop_endpoints(rot2@.take(t + 1), *shared_edge) =~= (r1
                    + spec_drop_endpoints(rot2@.take(t as int), *shared_edge)).push(c));
            } else {
                assert(r1 + spec_drop_endpoints(rot2@.take(t + 1), *shared_edge) =~= r1
                    + spec_drop_endpoints(rot2@.take(t as int), *shared_edge));
            }
        }
        if c != shared_edge.a && c != shared_edge.b {
            merged.push(c);
        }
        t = t + 1;
    }
    proof {
        assert(rot2@.take(rot2@.len() as int) =~= rot2@);
    }
    let first = merged[0];
    merged.push(first);
    let ring = dedup_consecutive(merged);
    Ok(Polygon { ring })
}

} // verus!
