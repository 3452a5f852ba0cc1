//! The Hertel-Mehlhorn decomposition: triangulate, index the shared edges,
//! then greedily merge triangle pairs across internal diagonals whenever the
//! union stays convex. One pass only: a polygon formed by a merge is never
//! offered further merges.

use vstd::prelude::*;
use vstd::pervasive::VecAdditionalExecFns;
use crate::geometry::Point;
use crate::polygon::{Polygon, open_ring, spec_convex_ring, is_polygon_convex};
use crate::errors::DecompError;
use crate::triangulate::{
    triangulate, spec_triangulate, tri_views, tri_ring, lemma_spec_triangulate_props,
    lemma_triangulation_triangles_convex,
};
use crate::shared_edges::{
    Edge, find_shared_edges, spec_owners, shared_records_ok, lemma_owners_in_range,
    lemma_singleton_tri_owners, tri_has_edge,
};
use crate::merge::{merge_polygons, spec_merge_rings, lemma_tri_has_edge_match};

verus! {

/// How many entries of a retirement-flag list are still false, i.e. how many
/// polygons are still active.
pub open spec fn count_false(s: Seq<bool>) -> int
    decreases s.len(),
{
    if s.len() == 0 {
        0
    } else {
        count_false(s.drop_last()) + (if s.last() {
            0int
        } else {
            1int
        })
    }
}

/// The polygons whose retirement flag is false, in order.
pub open spec fn spec_kept(ps: Seq<Seq<Point>>, fl: Seq<bool>) -> Seq<Seq<Point>>
    decreases ps.len(),
{
    if ps.len() == 0 {
        Seq::empty()
    } else {
        spec_kept(ps.drop_last(), fl.drop_last()) + (if fl[ps.len() - 1] {
            Seq::empty()
        } else {
            seq![ps.last()]
        })
    }
}

/// One step of the greedy pass on one shared-edge record: skip when either
/// owner is out of range or already retired; otherwise build the merged ring
/// and, exactly when it is convex, append it and retire both owners.
pub open spec fn spec_merge_step(
    polys: Seq<Seq<Point>>,
    fl: Seq<bool>,
    rec: (Edge, (usize, usize)),
) -> (Seq<Seq<Point>>, Seq<bool>) {
    let t1 = rec.1.0 as int;
    let t2 = rec.1.1 as int;
    if t1 >= polys.len() || t2 >= polys.len() || fl[t1] || fl[t2] {
        (polys, fl)
    } else {
        match spec_merge_rings(polys[t1], polys[t2], rec.0) {
            Some(m) => if spec_convex_ring(m) {
                (polys.push(m), fl.update(t1, true).update(t2, true).push(false))
            } else {
                (polys, fl)
            },
            None => (polys, fl),
        }
    }
}

/// The polygon list and retirement flags after the greedy pass has handled
/// the first k shared-edge records, starting from the triangle list with all
/// flags clear.
pub open spec fn spec_merge_state(
    ts: Seq<Seq<Point>>,
    rs: Seq<(Edge, (usize, usize))>,
    k: int,
) -> (Seq<Seq<Point>>, Seq<bool>)
    decreases k,
{
    if k <= 0 {
        (ts, Seq::new(ts.len(), |q: int| false))
    } else {
        let prev = spec_merge_state(ts, rs, k - 1);
        spec_merge_step(prev.0, prev.1, rs[k - 1])
    }
}

proof fn lemma_count_false_bounds(s: Seq<bool>)
    ensures
        0 <= count_false(s) <= s.len(),
    decreases s.len(),
{
    if s.len() > 0 {
        lemma_count_false_bounds(s.drop_last());
    }
}

proof fn lemma_count_false_update_true(s: Seq<bool>, i: int)
    requires
        0 <= i < s.len(),
    ensures
        count_false(s.update(i, true)) == count_false(s) - (if s[i] {
            0int
        } else {
            1int
        }),
    decreases s.len(),
{
    if i == s.len() - 1 {
        assert(s.update(i, true).drop_last() =~= s.drop_last());
    } else {
        assert(s.update(i, true).drop_last() =~= s.drop_last().update(i, true));
        lemma_count_false_update_true(s.drop_last(), i);
    }
}

proof fn lemma_count_false_push(s: Seq<bool>, b: bool)
    ensures
        count_false(s.push(b)) == count_false(s) + (if b {
            0int
        } else {
            1int
        }),
{
    assert(s.push(b).drop_last() =~= s);
}

proof fn lemma_one_false(s: Seq<bool>, i: int)
    requires
        0 <= i < s.len(),
        !s[i],
    ensures
        count_false(s) >= 1,
    decreases s.len(),
{
    lemma_count_false_bounds(s.drop_last());
    if i < s.len() - 1 {
        lemma_one_false(s.drop_last(), i);
    }
}

proof fn lemma_two_false(s: Seq<bool>, i: int, j: int)
    requires
        0 <= i < s.len(),
        0 <= j < s.len(),
        i != j,
        !s[i],
        !s[j],
    ensures
        count_false(s) >= 2,
    decreases s.len(),
{
    if i == s.len() - 1 {
        lemma_one_false(s.drop_last(), j);
    } else if j == s.len() - 1 {
        lemma_one_false(s.drop_last(), i);
    } else {
        lemma_two_false(s.drop_last(), i, j);
    }
}

proof fn lemma_kept_len(ps: Seq<Seq<Point>>, fl: Seq<bool>)
    requires
        ps.len() == fl.len(),
    ensures
        spec_kept(ps, fl).len() == count_false(fl),
    decreases ps.len(),
{
    if ps.len() > 0 {
        lemma_kept_len(ps.drop_last(), fl.drop_last());
    }
}

proof fn lemma_kept_membership(ps: Seq<Seq<Point>>, fl: Seq<bool>)
    requires
        ps.len() == fl.len(),
    ensures
        forall|m: int|
            0 <= m < spec_kept(ps, fl).len() ==> exists|i: int|
                0 <= i < ps.len() && #[trigger] spec_kept(ps, fl)[m] == ps[i] && !fl[i],
    decreases ps.len(),
{
    if ps.len() > 0 {
        lemma_kept_membership(ps.drop_last(), fl.drop_last());
        let pre = spec_kept(ps.drop_last(), fl.drop_last());
        assert forall|m: int| 0 <= m < spec_kept(ps, fl).len() implies exists|i: int|
            0 <= i < ps.len() && #[trigger] spec_kept(ps, fl)[m] == ps[i] && !fl[i] by {
            if m < pre.len() {
                assert(spec_kept(ps, fl)[m] == pre[m]);
                let i = choose|i: int|
                    0 <= i < ps.drop_last().len() && pre[m] == ps.drop_last()[i] && !fl.drop_last()[
                        i
                    ];
                assert(0 <= i < ps.len() && spec_kept(ps, fl)[m] == ps[i] && !fl[i]);
            } else {
                assert(!fl[ps.len() - 1]);
                assert(spec_kept(ps, fl)[m] == ps[ps.len() - 1]);
            }
        }
    }
}

proof fn lemma_kept_step(ps: Seq<Seq<Point>>, fl: Seq<bool>, i: int)
    requires
        0 <= i < ps.len(),
        i < fl.len(),
    ensures
        spec_kept(ps.take(i + 1), fl.take(i + 1)) == spec_kept(ps.take(i), fl.take(i)) + (if fl[i] {
            Seq::<Seq<Point>>::empty()
        } else {
            seq![ps[i]]
        }),
{
    assert(ps.take(i + 1).drop_last() =~= ps.take(i));
    assert(fl.take(i + 1).drop_last() =~= fl.take(i));
    assert(ps.take(i + 1).last() == ps[i]);
}

fn copy_polygon(p: &Polygon) -> (r: Polygon)
    ensures
        r@ == p@,
{
    let mut ring: Vec<Point> = Vec::new();
    let mut i: usize = 0;
    while i < p.ring.len()
        invariant
            i <= p@.len(),
            ring@ == p@.take(i as int),
        decreases p@.len() - i,
    {
        ring.push(p.ring[i]);
        proof {
            assert(p@.take(i + 1) =~= p@.take(i as int).push(p@[i as int]));
        }
        i = i + 1;
    }
    proof {
        assert(p@.take(p@.len() as int) =~= p@);
    }
    Polygon { ring }
}

proof fn lemma_views_push(ps: Seq<Polygon>, p: Polygon)
    ensures
        tri_views(ps.push(p)) == tri_views(ps).push(p@),
{
    assert(tri_views(ps.push(p)) =~= tri_views(ps).push(p@));
}

proof fn lemma_pieces_shape(
    ts: Seq<Seq<Point>>,
    mviews: Seq<Seq<Point>>,
    fl: Seq<bool>,
    ovs: Seq<Seq<Point>>,
)
    requires
        mviews.len() == fl.len(),
        ts.len() <= mviews.len(),
        forall|i: int| 0 <= i < ts.len() ==> #[trigger] mviews[i] == ts[i],
        forall|j: int| 0 <= j < ts.len() ==> (#[trigger] ts[j]).len() == 4 && ts[j][3] == ts[j][0],
        forall|i: int| ts.len() <= i < mviews.len() ==> spec_convex_ring(#[trigger] mviews[i]),
        ovs == spec_kept(mviews, fl),
    ensures
        forall|m: int|
            0 <= m < ovs.len() ==> spec_convex_ring(#[trigger] ovs[m]) || (ovs[m].len() == 4
                && ovs[m][3] == ovs[m][0]),
        (forall|j: int| 0 <= j < ts.len() ==> spec_convex_ring(#[trigger] ts[j])) ==> (forall|
            m: int,
        |
            0 <= m < ovs.len() ==> spec_convex_ring(#[trigger] ovs[m])),
{
    lemma_kept_membership(mviews, fl);
    assert forall|m: int| 0 <= m < ovs.len() implies spec_convex_ring(#[trigger] ovs[m]) || (
    ovs[m].len() == 4 && ovs[m][3] == ovs[m][0]) by {
        let wi = choose|wi: int| 0 <= wi < mviews.len() && ovs[m] == mviews[wi] && !fl[wi];
        if wi < ts.len() {
            assert(mviews[wi] == ts[wi]);
        }
    }
    if forall|j: int| 0 <= j < ts.len() ==> spec_convex_ring(#[trigger] ts[j]) {
        assert forall|m: int| 0 <= m < ovs.len() implies spec_convex_ring(#[trigger] ovs[m]) by {
            let wi = choose|wi: int| 0 <= wi < mviews.len() && ovs[m] == mviews[wi] && !fl[wi];
            if wi < ts.len() {
                assert(mviews[wi] == ts[wi]);
            }
        }
    }
}

#[verifier::rlimit(50)]
proof fn lemma_singleton_passthrough(
    p: Seq<Point>,
    ts: Seq<Seq<Point>>,
    rs: Seq<(Edge, (usize, usize))>,
    mviews: Seq<Seq<Point>>,
    fl: Seq<bool>,
    ovs: Seq<Seq<Point>>,
)
    requires
        p.len() == 4,
        p[3] == p[0],
        p[0] != p[1],
        p[0] != p[2],
        p[1] != p[2],
        spec_triangulate(open_ring(p)) == Some(ts),
        shared_records_ok(ts, rs),
        mviews.len() == fl.len(),
        ts.len() <= mviews.len() <= ts.len() + rs.len(),
        forall|i: int| 0 <= i < ts.len() ==> #[trigger] mviews[i] == ts[i],
        1 <= count_false(fl),
        ovs == spec_kept(mviews, fl),
    ensures
        ovs.len() == 1,
        ovs[0] == p,
{
    let w = open_ring(p);
    assert(w =~= p.drop_last());
    assert(w.len() == 3);
    assert(ts == seq![tri_ring(w[0], w[1], w[2])]);
    assert(ts[0].len() >= 3);
    assert(ts[0][0] == p[0] && ts[0][1] == p[1] && ts[0][2] == p[2]);
    if rs.len() > 0 {
        let e0 = (rs[0]).0;
        assert(spec_owners(ts, e0).len() == 2);
        lemma_singleton_tri_owners(ts, e0);
    }
    assert(rs.len() == 0);
    assert(mviews.len() == 1);
    assert(fl.len() == 1);
    lemma_count_false_bounds(fl);
    assert(count_false(fl) == 1);
    assert(!fl[0]) by {
        if fl[0] {
            assert(fl.drop_last().len() == 0);
            assert(count_false(fl.drop_last()) == 0);
            assert(count_false(fl) == 0);
        }
    }
    assert(mviews =~= seq![ts[0]]);
    assert(fl =~= seq![false]);
    assert(mviews.drop_last().len() == 0);
    assert(spec_kept(mviews.drop_last(), fl.drop_last()) =~= Seq::<Seq<Point>>::empty());
    assert(spec_kept(mviews, fl) =~= seq![ts[0]]);
    assert(ts[0] =~= p);
}

/// Decompose a simple counter-clockwise polygon into convex pieces.
///
/// Fails with InsufficientVertices exactly when fewer than four coordinates
/// are stored, and with NoEarFound exactly when ear-clipping triangulation
/// gets stuck; it never fails with EdgeNotFound. On success the piece count
/// is at least one and at most the triangle count of the triangulation (two
/// fewer than the number of working vertices); every piece is either convex
/// or one of the triangulation's closed triangle rings; and whenever the
/// final triangle of the triangulation is convex — every earlier one is
/// convex by construction — every piece is convex. The pieces are exactly
/// what the greedy pass leaves over some record list the shared-edge index
/// guarantees. A closed four-point ring over three distinct vertices is
/// returned unchanged as the single piece.
#[verifier::rlimit(100)]
#[verifier::spinoff_prover]
pub fn hertel_mehlhorn(polygon: &Polygon) -> (r: Result<Vec<Polygon>, DecompError>)
    ensures
        polygon@.len() < 4 <==> r == Err::<Vec<Polygon>, DecompError>(
            DecompError::InsufficientVertices,
        ),
        polygon@.len() >= 4 ==> ((spec_triangulate(open_ring(polygon@)) is None) <==> r
            == Err::<Vec<Polygon>, DecompError>(DecompError::NoEarFound)),
        polygon@.len() >= 4 && spec_triangulate(open_ring(polygon@)) is Some ==> r is Ok,
        r is Ok ==> {
            let out = r->Ok_0;
            let ts = spec_triangulate(open_ring(polygon@))->Some_0;
            &&& 1 <= out@.len() <= ts.len()
            &&& out@.len() <= open_ring(polygon@).len() - 2
            &&& forall|m: int|
                0 <= m < out@.len() ==> spec_convex_ring((#[trigger] out@[m])@) || ((out@[m])@.len()
                    == 4 && (out@[m])@[3] == (out@[m])@[0])
            &&& spec_convex_ring(ts[ts.len() - 1]) ==> (forall|m: int|
                0 <= m < out@.len() ==> spec_convex_ring((#[trigger] out@[m])@))
        },
        r is Ok ==> exists|rs: Seq<(Edge, (usize, usize))>|
            #[trigger] shared_records_ok(spec_triangulate(open_ring(polygon@))->Some_0, rs)
                && tri_views(r->Ok_0@) == spec_kept(
                spec_merge_state(
                    spec_triangulate(open_ring(polygon@))->Some_0,
                    rs,
                    rs.len() as int,
                ).0,
                spec_merge_state(
                    spec_triangulate(open_ring(polygon@))->Some_0,
                    rs,
                    rs.len() as int,
                ).1,
            ),
        polygon@.len() == 4 && polygon@[3] == polygon@[0] && polygon@[0] != polygon@[1]
            && polygon@[0] != polygon@[2] && polygon@[1] != polygon@[2] ==> (r is Ok
            && r->Ok_0@.len() == 1 && r->Ok_0@[0]@ == polygon@),
{
    let ghost w = open_ring(polygon@);
    let triangles = match triangulate(polygon) {
        Ok(ts) => ts,
        Err(e) => {
            return Err(e);
        },
    };
    proof {
        lemma_spec_triangulate_props(w);
    }
    let ghost ts = tri_views(triangles@);
    let ghost spec_ts = spec_triangulate(w)->Some_0;
    proof {
        assert(ts == spec_ts);
        assert forall|q: int| 0 <= q < triangles@.len() implies (
        #[trigger] triangles@[q])@.len() >= 3 by {
            assert(ts[q] == triangles@[q]@);
            assert(ts[q].len() == 4);
        }
    }
    let shared_edges = find_shared_edges(&triangles);
    let n0 = triangles.len();
    let mut merged = triangles;
    let mut to_remove: Vec<bool> = Vec::new();
    while to_remove.len() < n0
        invariant
            to_remove@.len() <= n0,
            count_false(to_remove@) == to_remove@.len(),
            forall|m: int| 0 <= m < to_remove@.len() ==> !(#[trigger] to_remove@[m]),
        decreases n0 - to_remove@.len(),
    {
        proof {
            lemma_count_false_push(to_remove@, false);
        }
        to_remove.push(false);
    }
    proof {
        assert(to_remove@ =~= Seq::new(ts.len(), |q: int| false));
        assert(tri_views(merged@) == ts);
    }
    let ns = shared_edges.len();
    let mut k: usize = 0;
    while k < ns
        invariant
            ns == shared_edges@.len(),
            k <= ns,
            n0 == ts.len(),
            3 <= w.len(),
            ts.len() == w.len() - 2,
            merged@.len() == to_remove@.len(),
            n0 <= merged@.len() <= n0 + k,
            forall|i: int| 0 <= i < n0 ==> (#[trigger] merged@[i])@ == ts[i],
            forall|j: int|
                0 <= j < ts.len() ==> (#[trigger] ts[j]).len() == 4 && ts[j][3] == ts[j][0],
            1 <= count_false(to_remove@) <= n0,
            forall|i: int|
                n0 <= i < merged@.len() ==> spec_convex_ring((#[trigger] merged@[i])@),
            shared_records_ok(ts, shared_edges@),
            tri_views(merged@) == spec_merge_state(ts, shared_edges@, k as int).0,
            to_remove@ == spec_merge_state(ts, shared_edges@, k as int).1,
        decreases ns - k,
    {
        let (edge, pair) = shared_edges[k];
        let (t1, t2) = pair;
        let ghost polys0 = tri_views(merged@);
        let ghost flags0 = to_remove@;
        proof {
            lemma_owners_in_range(ts, edge);
            assert(spec_owners(ts, edge).len() == 2);
            assert(0 <= t1 < n0 && tri_has_edge(ts[t1 as int], edge));
            assert(0 <= t2 < n0 && tri_has_edge(ts[t2 as int], edge));
            assert(spec_merge_state(ts, shared_edges@, k + 1) == spec_merge_step(
                polys0,
                flags0,
                shared_edges@[k as int],
            ));
        }
        if !(to_remove[t1] || to_remove[t2]) {
            proof {
                assert(merged@[t1 as int]@ == ts[t1 as int]);
                assert(merged@[t2 as int]@ == ts[t2 as int]);
                lemma_tri_has_edge_match(ts[t1 as int], edge);
                lemma_tri_has_edge_match(ts[t2 as int], edge);
            }
            let merged_polygon = match merge_polygons(&merged[t1], &merged[t2], &edge) {
                Ok(mp) => mp,
                Err(_) => {
                    proof {
                        assert(spec_merge_rings(merged@[t1 as int]@, merged@[t2 as int]@, edge)
                            is Some);
                        assert(false);
                    }
                    return Err(DecompError::EdgeNotFound);
                },
            };
            if is_polygon_convex(&merged_polygon) {
                let ghost fl0 = to_remove@;
                proof {
                    lemma_views_push(merged@, merged_polygon);
                    assert(polys0[t1 as int] == merged@[t1 as int]@);
                    assert(polys0[t2 as int] == merged@[t2 as int]@);
                }
                merged.push(merged_polygon);
                to_remove.set(t1, true);
                to_remove.set(t2, true);
                proof {
                    lemma_count_false_update_true(fl0, t1 as int);
                    if t1 != t2 {
                        lemma_two_false(fl0, t1 as int, t2 as int);
                        lemma_count_false_update_true(fl0.update(t1 as int, true), t2 as int);
                    } else {
                        assert(fl0.update(t1 as int, true).update(t2 as int, true) =~= fl0.update(
                            t1 as int,
                            true,
                        ));
                    }
                    lemma_count_false_push(to_remove@, false);
                    lemma_count_false_bounds(to_remove@);
                }
                to_remove.push(false);
            }
        }
        k = k + 1;
    }
    let nm = merged.len();
    let ghost mviews = tri_views(merged@);
    let ghost fl = to_remove@;
    let mut out: Vec<Polygon> = Vec::new();
    let mut i: usize = 0;
    while i < nm
        invariant
            nm == merged@.len(),
            i <= nm,
            mviews == tri_views(merged@),
            fl == to_remove@,
            merged@.len() == to_remove@.len(),
            tri_views(out@) == spec_kept(mviews.take(i as int), fl.take(i as int)),
        decreases nm - i,
    {
        proof {
            lemma_kept_step(mviews, fl, i as int);
        }
        if !to_remove[i] {
            let piece = copy_polygon(&merged[i]);
            proof {
                lemma_views_push(out@, piece);
                assert(piece@ == mviews[i as int]);
                assert(tri_views(out@).push(piece@) =~= spec_kept(
                    mviews.take(i as int),
                    fl.take(i as int),
                ) + seq![mviews[i as int]]);
            }
            out.push(piece);
        } else {
            proof {
                assert(spec_kept(mviews.take(i + 1), fl.take(i + 1)) =~= spec_kept(
                    mviews.take(i as int),
                    fl.take(i as int),
                ));
            }
        }
        i = i + 1;
    }
    proof {
        assert(mviews.take(nm as int) =~= mviews);
        assert(fl.take(nm as int) =~= fl);
        lemma_kept_len(mviews, fl);
        lemma_kept_membership(mviews, fl);
        assert(out@.len() == tri_views(out@).len());
        assert(shared_records_ok(spec_triangulate(w)->Some_0, shared_edges@));
        assert(tri_views(out@) == spec_kept(
            spec_merge_state(
                spec_triangulate(w)->Some_0,
                shared_edges@,
                shared_edges@.len() as int,
            ).0,
            spec_merge_state(
                spec_triangulate(w)->Some_0,
                shared_edges@,
                shared_edges@.len() as int,
            ).1,
        ));
        lemma_pieces_shape(ts, mviews, fl, tri_views(out@));
        assert forall|m: int| 0 <= m < out@.len() implies spec_convex_ring((#[trigger] out@[m])@)
            || ((out@[m])@.len() == 4 && (out@[m])@[3] == (out@[m])@[0]) by {
            assert(tri_views(out@)[m] == out@[m]@);
        }
        if spec_convex_ring(ts[ts.len() - 1]) {
            lemma_triangulation_triangles_convex(w);
            assert forall|j: int| 0 <= j < ts.len() implies spec_convex_ring(#[trigger] ts[j]) by {
            }
            assert forall|m: int| 0 <= m < out@.len() implies spec_convex_ring(
                (#[trigger] out@[m])@,
            ) by {
                assert(tri_views(out@)[m] == out@[m]@);
            }
        }
        if polygon@.len() == 4 && polygon@[3] == polygon@[0] && polygon@[0] != polygon@[1]
            && polygon@[0] != polygon@[2] && polygon@[1] != polygon@[2] {
            lemma_singleton_passthrough(polygon@, ts, shared_edges@, mviews, fl, tri_views(out@));
            assert(out@.len() == 1);
            assert(out@[0]@ == polygon@);
        }
    }
    Ok(out)
}

} // verus!
