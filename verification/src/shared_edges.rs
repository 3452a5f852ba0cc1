//! The shared-edge index: canonicalize the boundary edges of every triangle
//! and record, for each edge owned by exactly two triangles, the pair of
//! owning triangle indices. Those edges are the internal diagonals of the
//! triangulation.

use vstd::prelude::*;
use vstd::pervasive::VecAdditionalExecFns;
use crate::geometry::Point;
use crate::polygon::Polygon;
use crate::triangulate::tri_views;

verus! {

/// An unordered pair of points, canonicalized so that the lexicographically
/// smaller endpoint comes first.
#[derive(Clone, Copy, PartialEq, Eq, Structural, Debug)]
pub struct Edge {
    pub a: Point,
    pub b: Point,
}

/// Strict lexicographic order on coordinates: first by x, then by y.
pub open spec fn lex_lt(p: Point, q: Point) -> bool {
    p.x < q.x || (p.x == q.x && p.y < q.y)
}

/// The canonical form of the edge between p and q: endpoints ordered
/// lexicographically, so that both directions compare equal.
pub open spec fn spec_canon(p: Point, q: Point) -> Edge {
    if lex_lt(p, q) {
        Edge { a: p, b: q }
    } else {
        Edge { a: q, b: p }
    }
}

/// Canonicalize an edge.
pub fn canon_edge(p: Point, q: Point) -> (r: Edge)
    ensures
        r == spec_canon(p, q),
{
    if p.x < q.x || (p.x == q.x && p.y < q.y) {
        Edge { a: p, b: q }
    } else {
        Edge { a: q, b: p }
    }
}

/// The j-th canonical boundary edge of a triangle ring, for j in 0..3; the
/// third edge wraps back to the first vertex.
pub open spec fn tri_edge(t: Seq<Point>, j: int) -> Edge {
    spec_canon(t[j], t[if j == 2 { 0 } else { j + 1 }])
}

/// Whether e is one of the three canonical boundary edges of the triangle.
pub open spec fn tri_has_edge(t: Seq<Point>, e: Edge) -> bool {
    tri_edge(t, 0) == e || tri_edge(t, 1) == e || tri_edge(t, 2) == e
}

/// The owner entries contributed by triangle number i for edge e, counting
/// only its first j boundary edges: one entry i per matching occurrence.
pub open spec fn owners_tri_upto(i: int, t: Seq<Point>, e: Edge, j: int) -> Seq<int>
    decreases j,
{
    if j <= 0 {
        Seq::empty()
    } else {
        owners_tri_upto(i, t, e, j - 1) + (if tri_edge(t, j - 1) == e {
            seq![i]
        } else {
            Seq::empty()
        })
    }
}

/// All owner entries for edge e over a list of triangles, in scan order: for
/// each triangle, one entry per occurrence of e among its three edges.
pub open spec fn spec_owners(ts: Seq<Seq<Point>>, e: Edge) -> Seq<int>
    decreases ts.len(),
{
    if ts.len() == 0 {
        Seq::empty()
    } else {
        spec_owners(ts.drop_last(), e) + owners_tri_upto(ts.len() - 1, ts.last(), e, 3)
    }
}

/// Owner entries for an edge within the first i triangles and the first j
/// edges of triangle i.
pub open spec fn owners_at(ts: Seq<Seq<Point>>, i: int, j: int, e: Edge) -> Seq<int> {
    spec_owners(ts.take(i), e) + owners_tri_upto(i, ts[i], e, j)
}

proof fn lemma_owners_at_zero(ts: Seq<Seq<Point>>, i: int, e: Edge)
    ensures
        owners_at(ts, i, 0, e) == spec_owners(ts.take(i), e),
{
    assert(owners_at(ts, i, 0, e) =~= spec_owners(ts.take(i), e));
}

proof fn lemma_owners_at_step(ts: Seq<Seq<Point>>, i: int, j: int, e: Edge)
    requires
        0 <= j < 3,
    ensures
        owners_at(ts, i, j + 1, e) == if tri_edge(ts[i], j) == e {
            owners_at(ts, i, j, e).push(i)
        } else {
            owners_at(ts, i, j, e)
        },
{
    if tri_edge(ts[i], j) == e {
        assert(owners_at(ts, i, j + 1, e) =~= owners_at(ts, i, j, e).push(i));
    } else {
        assert(owners_at(ts, i, j + 1, e) =~= owners_at(ts, i, j, e));
    }
}

proof fn lemma_owners_take_step(ts: Seq<Seq<Point>>, i: int, e: Edge)
    requires
        0 <= i < ts.len(),
    ensures
        spec_owners(ts.take(i + 1), e) == owners_at(ts, i, 3, e),
{
    assert(ts.take(i + 1).drop_last() =~= ts.take(i));
    assert(ts.take(i + 1).last() == ts[i]);
    assert(spec_owners(ts.take(i + 1), e) == spec_owners(ts.take(i), e) + owners_tri_upto(
        i,
        ts[i],
        e,
        3,
    ));
}

proof fn lemma_take_all(ts: Seq<Seq<Point>>)
    ensures
        ts.take(ts.len() as int) == ts,
{
    assert(ts.take(ts.len() as int) =~= ts);
}

proof fn lemma_owners_tri_upto_props(i: int, t: Seq<Point>, e: Edge, j: int)
    requires
        0 <= j <= 3,
    ensures
        forall|q: int|
            0 <= q < owners_tri_upto(i, t, e, j).len() ==> #[trigger] owners_tri_upto(
                i,
                t,
                e,
                j,
            )[q] == i,
        owners_tri_upto(i, t, e, j).len() > 0 ==> tri_has_edge(t, e),
    decreases j,
{
    if j > 0 {
        lemma_owners_tri_upto_props(i, t, e, j - 1);
        let pre = owners_tri_upto(i, t, e, j - 1);
        let cur = owners_tri_upto(i, t, e, j);
        assert forall|q: int| 0 <= q < cur.len() implies cur[q] == i by {
            if q < pre.len() {
                assert(cur[q] == pre[q]);
            }
        }
    }
}

/// Every owner entry for an edge names a triangle of the list that really
/// carries that edge on its boundary.
pub proof fn lemma_owners_in_range(ts: Seq<Seq<Point>>, e: Edge)
    ensures
        forall|m: int|
            0 <= m < spec_owners(ts, e).len()
                ==> 0 <= #[trigger] spec_owners(ts, e)[m] < ts.len()
                    && tri_has_edge(ts[spec_owners(ts, e)[m]], e),
    decreases ts.len(),
{
    if ts.len() > 0 {
        lemma_owners_in_range(ts.drop_last(), e);
        let pre = spec_owners(ts.drop_last(), e);
        let tail = owners_tri_upto(ts.len() - 1, ts.last(), e, 3);
        assert forall|m: int| 0 <= m < spec_owners(ts, e).len() implies 0 <= #[trigger] spec_owners(
            ts,
            e,
        )[m] < ts.len() && tri_has_edge(ts[spec_owners(ts, e)[m]], e) by {
            if m < pre.len() {
                assert(spec_owners(ts, e)[m] == pre[m]);
                assert(ts.drop_last()[pre[m]] == ts[pre[m]]);
            } else {
                assert(spec_owners(ts, e)[m] == tail[m - pre.len()]);
                lemma_owners_tri_upto_props(ts.len() - 1, ts.last(), e, 3);
                assert(tail.len() > 0);
                assert(tri_has_edge(ts.last(), e));
            }
        }
    }
}

/// A single triangle with three distinct vertices owns three distinct
/// canonical edges, so no canonical edge is owned twice.
pub proof fn lemma_singleton_tri_owners(ts: Seq<Seq<Point>>, e: Edge)
    requires
        ts.len() == 1,
        ts[0].len() >= 3,
        ts[0][0] != ts[0][1],
        ts[0][0] != ts[0][2],
        ts[0][1] != ts[0][2],
    ensures
        spec_owners(ts, e).len() <= 1,
{
    let t = ts[0];
    assert(spec_owners(ts.drop_last(), e) =~= Seq::<int>::empty());
    assert(tri_edge(t, 0) != tri_edge(t, 1));
    assert(tri_edge(t, 0) != tri_edge(t, 2));
    assert(tri_edge(t, 1) != tri_edge(t, 2));
    assert(owners_tri_upto(0, t, e, 0) =~= Seq::<int>::empty());
    assert(owners_tri_upto(0, t, e, 1) == owners_tri_upto(0, t, e, 0) + (if tri_edge(t, 0) == e {
        seq![0int]
    } else {
        Seq::empty()
    }));
    assert(owners_tri_upto(0, t, e, 2) == owners_tri_upto(0, t, e, 1) + (if tri_edge(t, 1) == e {
        seq![0int]
    } else {
        Seq::empty()
    }));
    assert(owners_tri_upto(0, t, e, 3) == owners_tri_upto(0, t, e, 2) + (if tri_edge(t, 2) == e {
        seq![0int]
    } else {
        Seq::empty()
    }));
}

proof fn lemma_tri_occurrences(i: int, t: Seq<Point>, e: Edge)
    requires
        t.len() >= 3,
        t[0] != t[1],
        t[0] != t[2],
        t[1] != t[2],
    ensures
        owners_tri_upto(i, t, e, 3).len() <= 1,
        (owners_tri_upto(i, t, e, 3).len() == 1) == tri_has_edge(t, e),
{
    assert(tri_edge(t, 0) != tri_edge(t, 1));
    assert(tri_edge(t, 0) != tri_edge(t, 2));
    assert(tri_edge(t, 1) != tri_edge(t, 2));
    assert(owners_tri_upto(i, t, e, 0) =~= Seq::<int>::empty());
    assert(owners_tri_upto(i, t, e, 1) == owners_tri_upto(i, t, e, 0) + (if tri_edge(t, 0) == e {
        seq![i]
    } else {
        Seq::empty()
    }));
    assert(owners_tri_upto(i, t, e, 2) == owners_tri_upto(i, t, e, 1) + (if tri_edge(t, 1) == e {
        seq![i]
    } else {
        Seq::empty()
    }));
    assert(owners_tri_upto(i, t, e, 3) == owners_tri_upto(i, t, e, 2) + (if tri_edge(t, 2) == e {
        seq![i]
    } else {
        Seq::empty()
    }));
}

/// Two triangles with distinct vertices that share exactly one canonical
/// boundary edge give rise to exactly one shared-edge record, and that
/// record carries the shared edge and references both triangle indices, the
/// first then the second. The record-list hypotheses are the guarantees the
/// shared-edge index provides.
pub proof fn lemma_two_triangles_one_shared_edge(
    ts: Seq<Seq<Point>>,
    rs: Seq<(Edge, (usize, usize))>,
    e: Edge,
)
    requires
        ts.len() == 2,
        ts[0].len() >= 3,
        ts[1].len() >= 3,
        ts[0][0] != ts[0][1],
        ts[0][0] != ts[0][2],
        ts[0][1] != ts[0][2],
        ts[1][0] != ts[1][1],
        ts[1][0] != ts[1][2],
        ts[1][1] != ts[1][2],
        tri_has_edge(ts[0], e),
        tri_has_edge(ts[1], e),
        forall|e2: Edge|
            #![trigger tri_has_edge(ts[0], e2), tri_has_edge(ts[1], e2)]
            tri_has_edge(ts[0], e2) && tri_has_edge(ts[1], e2) ==> e2 == e,
        shared_records_ok(ts, rs),
    ensures
        rs.len() == 1,
        rs[0].0 == e,
        rs[0].1 == (0usize, 1usize),
{
    assert forall|e2: Edge| #[trigger] spec_owners(ts, e2) == owners_tri_upto(0, ts[0], e2, 3)
        + owners_tri_upto(1, ts[1], e2, 3) by {
        assert(ts.drop_last().drop_last().len() == 0);
        assert(spec_owners(ts.drop_last().drop_last(), e2) =~= Seq::<int>::empty());
        assert(ts.drop_last().last() == ts[0]);
        assert(ts.drop_last().len() == 1);
        assert(spec_owners(ts.drop_last(), e2) =~= owners_tri_upto(0, ts[0], e2, 3));
        assert(spec_owners(ts, e2) =~= spec_owners(ts.drop_last(), e2) + owners_tri_upto(
            1,
            ts[1],
            e2,
            3,
        ));
    }
    lemma_tri_occurrences(0, ts[0], e);
    lemma_tri_occurrences(1, ts[1], e);
    lemma_owners_tri_upto_props(0, ts[0], e, 3);
    lemma_owners_tri_upto_props(1, ts[1], e, 3);
    assert(spec_owners(ts, e) =~= seq![0int, 1int]);
    assert(exists|k: int| 0 <= k < rs.len() && rs[k].0 == e);
    assert forall|k: int| 0 <= k < rs.len() implies (#[trigger] rs[k]).0 == e by {
        let e2 = rs[k].0;
        assert(spec_owners(ts, e2).len() == 2);
        lemma_tri_occurrences(0, ts[0], e2);
        lemma_tri_occurrences(1, ts[1], e2);
        assert(owners_tri_upto(0, ts[0], e2, 3).len() == 1);
        assert(owners_tri_upto(1, ts[1], e2, 3).len() == 1);
        assert(tri_has_edge(ts[0], e2) && tri_has_edge(ts[1], e2));
    }
    assert(rs.len() >= 1);
    if rs.len() >= 2 {
        assert(rs[0].0 == e && rs[1].0 == e);
        assert(false);
    }
    assert(rs[0].1.0 as int == 0 && rs[0].1.1 as int == 1);
}

/// What the shared-edge index guarantees of its record list: it is sound
/// (each record's edge has exactly two owner entries, carried in scan
/// order), its edges are pairwise distinct, and it is complete (every
/// canonical edge owned exactly twice appears as a record).
pub open spec fn shared_records_ok(ts: Seq<Seq<Point>>, rs: Seq<(Edge, (usize, usize))>) -> bool {
    &&& forall|k: int|
        0 <= k < rs.len() ==> {
            let ow = spec_owners(ts, (#[trigger] rs[k]).0);
            ow.len() == 2 && rs[k].1.0 as int == ow[0] && rs[k].1.1 as int == ow[1]
        }
    &&& forall|k1: int, k2: int|
        0 <= k1 < k2 < rs.len() ==> (#[trigger] rs[k1]).0 != (#[trigger] rs[k2]).0
    &&& forall|e: Edge|
        (#[trigger] spec_owners(ts, e)).len() == 2 ==> exists|k: int|
            0 <= k < rs.len() && rs[k].0 == e
}

/// The record list produced by the index satisfies `shared_records_ok`: it
/// lists exactly the canonical edges owned by two triangle occurrences, each
/// once, with its pair of owners.
pub fn find_shared_edges(triangles: &Vec<Polygon>) -> (r: Vec<(Edge, (usize, usize))>)
    requires
        forall|q: int| 0 <= q < triangles@.len() ==> (#[trigger] triangles@[q])@.len() >= 3,
    ensures
        shared_records_ok(tri_views(triangles@), r@),
{
    let ghost ts = tri_views(triangles@);
    let mut keys: Vec<Edge> = Vec::new();
    let mut owners_info: Vec<(usize, usize, usize)> = Vec::new();
    let n = triangles.len();
    let mut i: usize = 0;
    while i < n
        invariant
            n == triangles@.len(),
            ts == tri_views(triangles@),
            forall|q: int| 0 <= q < triangles@.len() ==> (#[trigger] triangles@[q])@.len() >= 3,
            i <= n,
            keys@.len() == owners_info@.len(),
            forall|k1: int, k2: int|
                0 <= k1 < k2 < keys@.len() ==> #[trigger] keys@[k1] != #[trigger] keys@[k2],
            forall|k: int|
                0 <= k < keys@.len() ==> info_ok(
                    #[trigger] owners_info@[k],
                    spec_owners(ts.take(i as int), keys@[k]),
                ),
            forall|e: Edge|
                !keys@.contains(e) ==> (#[trigger] spec_owners(ts.take(i as int), e)).len() == 0,
        decreases n - i,
    {
        let mut j: usize = 0;
        proof {
            assert(ts[i as int] == triangles@[i as int]@);
            assert forall|e: Edge| !keys@.contains(e) implies (#[trigger] owners_at(
                ts,
                i as int,
                0,
                e,
            )).len() == 0 by {
                lemma_owners_at_zero(ts, i as int, e);
            }
            assert forall|k: int| 0 <= k < keys@.len() implies info_ok(
                #[trigger] owners_info@[k],
                owners_at(ts, i as int, 0, keys@[k]),
            ) by {
                lemma_owners_at_zero(ts, i as int, keys@[k]);
            }
        }
        while j < 3
            invariant
                n == triangles@.len(),
                ts == tri_views(triangles@),
                forall|q: int| 0 <= q < triangles@.len() ==> (#[trigger] triangles@[q])@.len() >= 3,
                i < n,
                j <= 3,
                keys@.len() == owners_info@.len(),
                forall|k1: int, k2: int|
                    0 <= k1 < k2 < keys@.len() ==> #[trigger] keys@[k1] != #[trigger] keys@[k2],
                forall|k: int|
                    0 <= k < keys@.len() ==> info_ok(
                        #[trigger] owners_info@[k],
                        owners_at(ts, i as int, j as int, keys@[k]),
                    ),
                forall|e: Edge|
                    !keys@.contains(e) ==> (#[trigger] owners_at(ts, i as int, j as int, e)).len()
                        == 0,
            decreases 3 - j,
        {
            let jn = if j == 2 { 0 } else { j + 1 };
            let edge = canon_edge(triangles[i].ring[j], triangles[i].ring[jn]);
            proof {
                assert(ts[i as int] == triangles@[i as int]@);
                assert(edge == tri_edge(ts[i as int], j as int));
            }
            let found = find_key(&keys, edge);
            let ghost old_keys = keys@;
            let ghost old_info = owners_info@;
            match found {
                Some(k) => {
                    let (cnt, o1, o2) = owners_info[k];
                    let ncnt = if cnt < 3 { cnt + 1 } else { cnt };
                    let no1 = if cnt == 0 { i } else { o1 };
                    let no2 = if cnt == 1 { i } else { o2 };
                    owners_info.set(k, (ncnt, no1, no2));
                },
                None => {
                    keys.push(edge);
                    owners_info.push((1, i, 0));
                },
            }
            proof {
                let jj = j as int;
                let ii = i as int;
                assert forall|k: int| 0 <= k < keys@.len() implies info_ok(
                    #[trigger] owners_info@[k],
                    owners_at(ts, ii, jj + 1, keys@[k]),
                ) by {
                    lemma_owners_at_step(ts, ii, jj, keys@[k]);
                    if k < old_keys.len() {
                        assert(keys@[k] == old_keys[k]);
                        assert(info_ok(old_info[k], owners_at(ts, ii, jj, keys@[k])));
                    } else {
                        assert(keys@[k] == tri_edge(ts[ii], jj));
                        assert(!old_keys.contains(keys@[k]));
                        assert(owners_at(ts, ii, jj, keys@[k]).len() == 0);
                    }
                }
                assert forall|e: Edge| !keys@.contains(e) implies (#[trigger] owners_at(
                    ts,
                    ii,
                    jj + 1,
                    e,
                )).len() == 0 by {
                    lemma_owners_at_step(ts, ii, jj, e);
                    assert(!old_keys.contains(e)) by {
                        if old_keys.contains(e) {
                            let m = choose|m: int| 0 <= m < old_keys.len() && old_keys[m] == e;
                            assert(keys@[m] == e);
                        }
                    }
                    assert(e != tri_edge(ts[ii], jj)) by {
                        if e == tri_edge(ts[ii], jj) {
                            match found {
                                Some(k) => {
                                    assert(keys@[k as int] == e);
                                },
                                None => {
                                    assert(keys@[keys@.len() - 1] == e);
                                },
                            }
                        }
                    }
                }
            }
            j = j + 1;
        }
        proof {
            assert forall|k: int| 0 <= k < keys@.len() implies info_ok(
                #[trigger] owners_info@[k],
                spec_owners(ts.take(i + 1), keys@[k]),
            ) by {
                lemma_owners_take_step(ts, i as int, keys@[k]);
            }
            assert forall|e: Edge| !keys@.contains(e) implies (#[trigger] spec_owners(
                ts.take(i + 1),
                e,
            )).len() == 0 by {
                lemma_owners_take_step(ts, i as int, e);
            }
        }
        i = i + 1;
    }
    proof {
        lemma_take_all(ts);
    }
    let mut result: Vec<(Edge, (usize, usize))> = Vec::new();
    let nk = keys.len();
    let mut k: usize = 0;
    while k < nk
        invariant
            nk == keys@.len(),
            k <= nk,
            keys@.len() == owners_info@.len(),
            forall|k1: int, k2: int|
                0 <= k1 < k2 < keys@.len() ==> #[trigger] keys@[k1] != #[trigger] keys@[k2],
            forall|q: int|
                0 <= q < keys@.len() ==> info_ok(
                    #[trigger] owners_info@[q],
                    spec_owners(ts, keys@[q]),
                ),
            forall|e: Edge| !keys@.contains(e) ==> (#[trigger] spec_owners(ts, e)).len() == 0,
            forall|m: int|
                0 <= m < result@.len() ==> {
                    let ow = spec_owners(ts, (#[trigger] result@[m]).0);
                    ow.len() == 2 && result@[m].1.0 as int == ow[0] && result@[m].1.1 as int
                        == ow[1]
                },
            forall|m1: int, m2: int|
                0 <= m1 < m2 < result@.len() ==> (#[trigger] result@[m1]).0 != (
                #[trigger] result@[m2]).0,
            forall|m: int, q: int|
                0 <= m < result@.len() && k <= q < keys@.len() ==> (#[trigger] result@[m]).0 != (
                #[trigger] keys@[q]),
            forall|e: Edge|
                (#[trigger] spec_owners(ts, e)).len() == 2 && (exists|q: int|
                    0 <= q < k && keys@[q] == e) ==> exists|m: int|
                    0 <= m < result@.len() && result@[m].0 == e,
        decreases nk - k,
    {
        let ghost entry = result@;
        let (cnt, o1, o2) = owners_info[k];
        if cnt == 2 {
            result.push((keys[k], (o1, o2)));
        }
        proof {
            assert forall|e: Edge|
                (#[trigger] spec_owners(ts, e)).len() == 2 && (exists|q: int|
                    0 <= q < k + 1 && keys@[q] == e) implies exists|m: int|
                0 <= m < result@.len() && result@[m].0 == e by {
                let q = choose|q: int| 0 <= q < k + 1 && keys@[q] == e;
                if q == k as int {
                    assert(info_ok(owners_info@[q], spec_owners(ts, e)));
                    assert(result@[result@.len() - 1].0 == e);
                } else {
                    assert(exists|m: int| 0 <= m < entry.len() && entry[m].0 == e);
                    let m = choose|m: int| 0 <= m < entry.len() && entry[m].0 == e;
                    assert(result@[m].0 == e);
                }
            }
        }
        k = k + 1;
    }
    proof {
        assert forall|e: Edge| (#[trigger] spec_owners(ts, e)).len() == 2 implies exists|m: int|
            0 <= m < result@.len() && result@[m].0 == e by {
            assert(keys@.contains(e));
            let q = choose|q: int| 0 <= q < keys@.len() && keys@[q] == e;
            assert(0 <= q < nk && keys@[q] == e);
        }
    }
    result
}

/// The capped occurrence count and the first two owner entries held for one
/// canonical edge agree with its spec-level owner list.
pub open spec fn info_ok(info: (usize, usize, usize), ow: Seq<int>) -> bool {
    &&& info.0 as int == if ow.len() <= 3 {
        ow.len() as int
    } else {
        3
    }
    &&& ow.len() >= 1 ==> info.1 as int == ow[0]
    &&& ow.len() >= 2 ==> info.2 as int == ow[1]
}

fn find_key(keys: &Vec<Edge>, e: Edge) -> (r: Option<usize>)
    ensures
        match r {
            Some(k) => k < keys@.len() && keys@[k as int] == e,
            None => !keys@.contains(e),
        },
{
    let mut m: usize = 0;
    while m < keys.len()
        invariant
            m <= keys@.len(),
            forall|q: int| 0 <= q < m ==> #[trigger] keys@[q] != e,
        decreases keys@.len() - m,
    {
        if keys[m] == e {
            return Some(m);
        }
        m = m + 1;
    }
    None
}

} // verus!
