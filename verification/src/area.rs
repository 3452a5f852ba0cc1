//! Signed areas by the shoelace formula, and the proofs that the
//! decomposition conserves them: ear-clipping triangulation emits triangles
//! whose doubled signed areas sum to the working ring's, each splice across
//! an oppositely traversed shared edge keeps the sum, and the greedy pass as
//! a whole hands back pieces of exactly the triangulated area.

use vstd::prelude::*;
use crate::geometry::Point;
use crate::polygon::{prev_idx, next_idx, spec_convex_ring};
use crate::triangulate::{spec_triangulate, tri_ring, first_clip_from};
use crate::shared_edges::Edge;
use crate::merge::{
    spec_rotate, spec_drop_endpoints, spec_dedup, spec_merge_rings, first_edge_match,
    edge_match_at, lemma_fem_range,
};
use crate::decompose::{spec_kept, spec_merge_state, spec_merge_step};

verus! {

/// The shoelace term of one directed boundary step.
pub open spec fn cross2(a: Point, b: Point) -> int {
    a.x * b.y - b.x * a.y
}

/// The sum of the shoelace terms of the steps (k, k+1) for lo <= k < hi.
pub open spec fn seg_sum(s: Seq<Point>, lo: int, hi: int) -> int
    decreases hi - lo,
{
    if hi <= lo {
        0
    } else {
        seg_sum(s, lo, hi - 1) + cross2(s[hi - 1], s[hi])
    }
}

/// Twice the signed area of an open vertex ring: the shoelace sum over all
/// consecutive steps plus the wrap-around step.
pub open spec fn area2(s: Seq<Point>) -> int {
    if s.len() == 0 {
        0
    } else {
        seg_sum(s, 0, s.len() - 1) + cross2(s[s.len() - 1], s[0])
    }
}

/// Twice the signed area of a closed ring: the shoelace sum over its stored
/// steps; the closing duplicate makes a wrap term unnecessary.
pub open spec fn ring_area2(t: Seq<Point>) -> int {
    seg_sum(t, 0, t.len() - 1)
}

/// The summed doubled areas of a list of closed rings.
pub open spec fn tris_area2(ts: Seq<Seq<Point>>) -> int
    decreases ts.len(),
{
    if ts.len() == 0 {
        0
    } else {
        ring_area2(ts[0]) + tris_area2(ts.drop_first())
    }
}

proof fn lemma_seg_sum_split(s: Seq<Point>, lo: int, mid: int, hi: int)
    requires
        lo <= mid <= hi,
    ensures
        seg_sum(s, lo, hi) == seg_sum(s, lo, mid) + seg_sum(s, mid, hi),
    decreases hi - mid,
{
    if mid < hi {
        lemma_seg_sum_split(s, lo, mid, hi - 1);
    }
}

proof fn lemma_seg_sum_shift(s1: Seq<Point>, s2: Seq<Point>, lo: int, hi: int, d: int)
    requires
        lo <= hi,
        forall|k: int| lo <= k <= hi ==> s2[k + d] == s1[k],
    ensures
        seg_sum(s2, lo + d, hi + d) == seg_sum(s1, lo, hi),
    decreases hi - lo,
{
    if lo < hi {
        lemma_seg_sum_shift(s1, s2, lo, hi - 1, d);
        assert(s2[hi - 1 + d] == s1[hi - 1]);
        assert(s2[hi + d] == s1[hi]);
    }
}

/// Removing one vertex from a ring subtracts exactly the doubled area of the
/// triangle it forms with its cyclic neighbours.
proof fn lemma_area2_remove(s: Seq<Point>, i: int)
    requires
        4 <= s.len(),
        0 <= i < s.len(),
    ensures
        area2(s) == area2(s.remove(i)) + ring_area2(
            tri_ring(s[prev_idx(s.len() as int, i)], s[i], s[next_idx(s.len() as int, i)]),
        ),
{
    reveal_with_fuel(seg_sum, 5);
    let n = s.len() as int;
    let r = s.remove(i);
    let t = tri_ring(s[prev_idx(n, i)], s[i], s[next_idx(n, i)]);
    assert(ring_area2(t) == cross2(t[0], t[1]) + cross2(t[1], t[2]) + cross2(t[2], t[3]));
    if i == 0 {
        assert(t[0] == s[n - 1] && t[1] == s[0] && t[2] == s[1] && t[3] == s[n - 1]);
        lemma_seg_sum_split(s, 0, 1, n - 1);
        assert(seg_sum(s, 0, 1) == cross2(s[0], s[1]));
        lemma_seg_sum_shift(s, r, 1, n - 1, -1);
        assert(area2(r) == seg_sum(r, 0, n - 2) + cross2(r[n - 2], r[0]));
        assert(r[n - 2] == s[n - 1] && r[0] == s[1]);
    } else if i == n - 1 {
        assert(t[0] == s[n - 2] && t[1] == s[n - 1] && t[2] == s[0] && t[3] == s[n - 2]);
        assert(seg_sum(s, 0, n - 1) == seg_sum(s, 0, n - 2) + cross2(s[n - 2], s[n - 1]));
        lemma_seg_sum_shift(s, r, 0, n - 2, 0);
        assert(area2(r) == seg_sum(r, 0, n - 2) + cross2(r[n - 2], r[0]));
        assert(r[n - 2] == s[n - 2] && r[0] == s[0]);
    } else {
        assert(t[0] == s[i - 1] && t[1] == s[i] && t[2] == s[i + 1] && t[3] == s[i - 1]);
        lemma_seg_sum_split(s, 0, i - 1, n - 1);
        lemma_seg_sum_split(s, i - 1, i + 1, n - 1);
        assert(seg_sum(s, i - 1, i + 1) == cross2(s[i - 1], s[i]) + cross2(s[i], s[i + 1]));
        lemma_seg_sum_split(r, 0, i - 1, n - 2);
        lemma_seg_sum_split(r, i - 1, i, n - 2);
        assert(seg_sum(r, i - 1, i) == cross2(r[i - 1], r[i]));
        assert(r[i - 1] == s[i - 1] && r[i] == s[i + 1]);
        if 0 < i - 1 {
            lemma_seg_sum_shift(s, r, 0, i - 1, 0);
        }
        if i + 1 < n - 1 {
            lemma_seg_sum_shift(s, r, i + 1, n - 1, -1);
        }
        assert(seg_sum(r, 0, i - 1) == seg_sum(s, 0, i - 1));
        assert(seg_sum(r, i, n - 2) == seg_sum(s, i + 1, n - 1));
        assert(r[n - 2] == s[n - 1] && r[0] == s[0]);
        assert(area2(r) == seg_sum(r, 0, n - 2) + cross2(r[n - 2], r[0]));
    }
}

proof fn lemma_area2_close(x: Seq<Point>)
    requires
        1 <= x.len(),
    ensures
        ring_area2(x.push(x[0])) == area2(x),
{
    let n = x.len() as int;
    let y = x.push(x[0]);
    assert(seg_sum(y, 0, n) == seg_sum(y, 0, n - 1) + cross2(y[n - 1], y[n]));
    if n >= 2 {
        lemma_seg_sum_shift(x, y, 0, n - 1, 0);
    }
}

proof fn lemma_area2_concat(x: Seq<Point>, y: Seq<Point>)
    requires
        1 <= x.len(),
        1 <= y.len(),
    ensures
        area2(x + y) == area2(x) + area2(y) + cross2(x.last(), y[0]) + cross2(y.last(), x[0])
            - cross2(x.last(), x[0]) - cross2(y.last(), y[0]),
{
    reveal_with_fuel(seg_sum, 3);
    let n = x.len() as int;
    let m = y.len() as int;
    let z = x + y;
    lemma_seg_sum_split(z, 0, n - 1, n + m - 1);
    lemma_seg_sum_split(z, n - 1, n, n + m - 1);
    assert(seg_sum(z, n - 1, n) == cross2(z[n - 1], z[n]));
    if n >= 2 {
        lemma_seg_sum_shift(x, z, 0, n - 1, 0);
    }
    if m >= 2 {
        lemma_seg_sum_shift(y, z, 0, m - 1, n);
    }
    assert(z[n - 1] == x.last() && z[n] == y[0] && z[n + m - 1] == y.last() && z[0] == x[0]);
}

proof fn lemma_dedup_last(s: Seq<Point>)
    requires
        1 <= s.len(),
    ensures
        1 <= spec_dedup(s).len(),
        spec_dedup(s).last() == s.last(),
    decreases s.len(),
{
    if s.len() >= 2 && s.last() == s[s.len() - 2] {
        lemma_dedup_last(s.drop_last());
    }
}

/// Collapsing immediately consecutive duplicate points does not change the
/// shoelace sum of a ring: a step between equal points contributes nothing.
proof fn lemma_dedup_area(s: Seq<Point>)
    ensures
        ring_area2(spec_dedup(s)) == ring_area2(s),
    decreases s.len(),
{
    reveal_with_fuel(seg_sum, 3);
    reveal_with_fuel(spec_dedup, 3);
    if s.len() >= 2 {
        let n = s.len() as int;
        let pre = s.drop_last();
        lemma_dedup_area(pre);
        lemma_seg_sum_shift(pre, s, 0, n - 2, 0);
        assert(ring_area2(s) == ring_area2(pre) + cross2(s[n - 2], s[n - 1]));
        if s.last() == s[n - 2] {
            assert(cross2(s[n - 2], s[n - 1]) == 0);
        } else {
            let dp = spec_dedup(pre);
            lemma_dedup_last(pre);
            let dn = dp.len() as int;
            assert(spec_dedup(s) == dp.push(s.last()));
            assert(seg_sum(dp.push(s.last()), 0, dn) == seg_sum(dp.push(s.last()), 0, dn - 1)
                + cross2(dp.push(s.last())[dn - 1], dp.push(s.last())[dn]));
            if dn >= 2 {
                lemma_seg_sum_shift(dp, dp.push(s.last()), 0, dn - 1, 0);
            }
            assert(dp.push(s.last())[dn - 1] == s[n - 2]);
        }
    }
}

proof fn lemma_rotate_tri_area(c: Seq<Point>, i: int)
    requires
        c.len() == 4,
        c[3] == c[0],
        0 <= i <= 2,
    ensures
        area2(spec_rotate(c, i)) == ring_area2(c),
{
    reveal_with_fuel(seg_sum, 5);
    let r = spec_rotate(c, i);
    if i == 0 {
        assert(r =~= seq![c[1], c[2], c[3], c[0]]);
    } else if i == 1 {
        assert(r =~= seq![c[2], c[3], c[0], c[1]]);
    } else {
        assert(r =~= seq![c[3], c[0], c[1], c[2]]);
    }
}

/// Splicing two closed triangle rings across their shared edge conserves the
/// doubled signed area, provided each ring has three distinct vertices and
/// the two rings traverse the shared edge in opposite directions, as two
/// counter-clockwise triangles bordering a common diagonal do.
pub proof fn lemma_merge_rings_area(c1: Seq<Point>, c2: Seq<Point>, e: Edge)
    requires
        c1.len() == 4,
        c1[3] == c1[0],
        c2.len() == 4,
        c2[3] == c2[0],
        c2[0] != c2[1],
        c2[0] != c2[2],
        c2[1] != c2[2],
        first_edge_match(c1, e.a, e.b) is Some,
        first_edge_match(c2, e.a, e.b) is Some,
        c1[first_edge_match(c1, e.a, e.b)->Some_0] == c2[first_edge_match(
            c2,
            e.a,
            e.b,
        )->Some_0 + 1],
        c1[first_edge_match(c1, e.a, e.b)->Some_0 + 1] == c2[first_edge_match(
            c2,
            e.a,
            e.b,
        )->Some_0],
    ensures
        spec_merge_rings(c1, c2, e) is Some,
        ring_area2(spec_merge_rings(c1, c2, e)->Some_0) == ring_area2(c1) + ring_area2(c2),
{
    reveal_with_fuel(seg_sum, 5);
    reveal_with_fuel(spec_drop_endpoints, 6);
    let i1 = first_edge_match(c1, e.a, e.b)->Some_0;
    let i2 = first_edge_match(c2, e.a, e.b)->Some_0;
    lemma_fem_range(c1, e.a, e.b, 0);
    lemma_fem_range(c2, e.a, e.b, 0);
    let rot1 = spec_rotate(c1, i1);
    let rot2 = spec_rotate(c2, i2);
    let dropped = spec_drop_endpoints(rot2, e);
    assert(edge_match_at(c2, i2, e.a, e.b));
    let w = if i2 == 0 {
        c2[2]
    } else if i2 == 1 {
        c2[0]
    } else {
        c2[1]
    };
    assert(w != e.a && w != e.b);
    if i2 == 0 {
        assert(rot2 =~= seq![c2[1], c2[2], c2[3], c2[0]]);
        assert(dropped =~= seq![w]);
    } else if i2 == 1 {
        assert(rot2 =~= seq![c2[2], c2[3], c2[0], c2[1]]);
        assert(dropped =~= seq![w, w]);
    } else {
        assert(rot2 =~= seq![c2[3], c2[0], c2[1], c2[2]]);
        assert(dropped =~= seq![w]);
    }
    assert(dropped[0] == w && dropped.last() == w && 1 <= dropped.len() <= 2);
    assert(area2(dropped) == 0);
    let joined = rot1 + dropped;
    assert(rot1.len() == 4);
    assert(rot1[0] == c1[i1 + 1] && rot1.last() == c1[i1]);
    assert(joined[0] == rot1[0]);
    lemma_area2_concat(rot1, dropped);
    lemma_rotate_tri_area(c1, i1);
    lemma_area2_close(joined);
    lemma_dedup_area(joined.push(joined[0]));
    assert(spec_merge_rings(c1, c2, e) == Some(spec_dedup(joined.push(joined[0]))));
    assert(area2(joined) == ring_area2(c1) + cross2(c1[i1], w) + cross2(w, c1[i1 + 1]) - cross2(
        c1[i1],
        c1[i1 + 1],
    ));
    assert(ring_area2(c2) == cross2(c2[0], c2[1]) + cross2(c2[1], c2[2]) + cross2(c2[2], c2[3]));
    assert(cross2(c1[i1], w) + cross2(w, c1[i1 + 1]) - cross2(c1[i1], c1[i1 + 1]) == ring_area2(
        c2,
    ));
}

/// Ear-clipping triangulation conserves area: the doubled signed areas of
/// the emitted closed triangle rings sum to the doubled signed area of the
/// working ring.
pub proof fn lemma_triangulation_area(s: Seq<Point>)
    requires
        spec_triangulate(s) is Some,
    ensures
        tris_area2(spec_triangulate(s)->Some_0) == area2(s),
    decreases s.len(),
{
    reveal_with_fuel(seg_sum, 5);
    let ts = spec_triangulate(s)->Some_0;
    if s.len() == 3 {
        let t = tri_ring(s[0], s[1], s[2]);
        assert(ts == seq![t]);
        assert(ts.drop_first() =~= Seq::<Seq<Point>>::empty());
        assert(tris_area2(ts) == ring_area2(ts[0]) + tris_area2(ts.drop_first()));
        assert(tris_area2(ts.drop_first()) == 0);
        assert(ts[0] == t);
        assert(ring_area2(t) == cross2(t[0], t[1]) + cross2(t[1], t[2]) + cross2(t[2], t[3]));
        assert(seg_sum(s, 0, 2) == cross2(s[0], s[1]) + cross2(s[1], s[2]));
    } else {
        let i = first_clip_from(s, 0)->Some_0;
        assert(0 <= i < s.len());
        let n = s.len() as int;
        let t = tri_ring(s[prev_idx(n, i)], s[i], s[next_idx(n, i)]);
        let rest = spec_triangulate(s.remove(i))->Some_0;
        assert(ts == seq![t] + rest);
        lemma_triangulation_area(s.remove(i));
        lemma_area2_remove(s, i);
        assert(ts[0] == t);
        assert(ts.drop_first() =~= rest);
        assert(tris_area2(ts) == ring_area2(t) + tris_area2(rest));
    }
}

/// A shared-edge record is area-safe for the given pass state: either the
/// step will skip it, or it joins two distinct closed triangle rings, the
/// second with distinct vertices, that both carry the shared edge and
/// traverse it in opposite directions.
pub open spec fn step_area_ok(
    polys: Seq<Seq<Point>>,
    fl: Seq<bool>,
    rec: (Edge, (usize, usize)),
) -> bool {
    let t1 = rec.1.0 as int;
    let t2 = rec.1.1 as int;
    if t1 >= polys.len() || t2 >= polys.len() || fl[t1] || fl[t2] {
        true
    } else {
        let c1 = polys[t1];
        let c2 = polys[t2];
        let e = rec.0;
        &&& t1 != t2
        &&& c1.len() == 4 && c1[3] == c1[0]
        &&& c2.len() == 4 && c2[3] == c2[0]
        &&& c2[0] != c2[1] && c2[0] != c2[2] && c2[1] != c2[2]
        &&& first_edge_match(c1, e.a, e.b) is Some
        &&& first_edge_match(c2, e.a, e.b) is Some
        &&& c1[first_edge_match(c1, e.a, e.b)->Some_0] == c2[first_edge_match(
            c2,
            e.a,
            e.b,
        )->Some_0 + 1]
        &&& c1[first_edge_match(c1, e.a, e.b)->Some_0 + 1] == c2[first_edge_match(
            c2,
            e.a,
            e.b,
        )->Some_0]
    }
}

proof fn lemma_tris_area2_add(x: Seq<Seq<Point>>, y: Seq<Seq<Point>>)
    ensures
        tris_area2(x + y) == tris_area2(x) + tris_area2(y),
    decreases x.len(),
{
    if x.len() == 0 {
        assert(x + y =~= y);
    } else {
        assert((x + y).drop_first() =~= x.drop_first() + y);
        assert((x + y)[0] == x[0]);
        lemma_tris_area2_add(x.drop_first(), y);
    }
}

proof fn lemma_tris_area2_single(t: Seq<Point>)
    ensures
        tris_area2(seq![t]) == ring_area2(t),
{
    assert(seq![t].drop_first() =~= Seq::<Seq<Point>>::empty());
    assert(tris_area2(seq![t].drop_first()) == 0);
}

proof fn lemma_kept_all_false(ps: Seq<Seq<Point>>, fl: Seq<bool>)
    requires
        ps.len() == fl.len(),
        forall|i: int| 0 <= i < fl.len() ==> !(#[trigger] fl[i]),
    ensures
        spec_kept(ps, fl) == ps,
    decreases ps.len(),
{
    if ps.len() > 0 {
        lemma_kept_all_false(ps.drop_last(), fl.drop_last());
        assert(spec_kept(ps, fl) =~= ps);
    } else {
        assert(spec_kept(ps, fl) =~= ps);
    }
}

proof fn lemma_kept_area_update(ps: Seq<Seq<Point>>, fl: Seq<bool>, t: int)
    requires
        ps.len() == fl.len(),
        0 <= t < ps.len(),
        !fl[t],
    ensures
        tris_area2(spec_kept(ps, fl.update(t, true))) == tris_area2(spec_kept(ps, fl))
            - ring_area2(ps[t]),
    decreases ps.len(),
{
    let n = ps.len() as int;
    let flu = fl.update(t, true);
    let pre = spec_kept(ps.drop_last(), fl.drop_last());
    if t == n - 1 {
        assert(flu.drop_last() =~= fl.drop_last());
        assert(spec_kept(ps, flu) == pre + Seq::<Seq<Point>>::empty());
        assert(spec_kept(ps, fl) == pre + seq![ps.last()]);
        lemma_tris_area2_add(pre, Seq::empty());
        lemma_tris_area2_add(pre, seq![ps.last()]);
        lemma_tris_area2_single(ps.last());
        assert(tris_area2(Seq::<Seq<Point>>::empty()) == 0);
    } else {
        assert(flu.drop_last() =~= fl.drop_last().update(t, true));
        lemma_kept_area_update(ps.drop_last(), fl.drop_last(), t);
        let preu = spec_kept(ps.drop_last(), flu.drop_last());
        let tail = if fl[n - 1] {
            Seq::<Seq<Point>>::empty()
        } else {
            seq![ps.last()]
        };
        assert(spec_kept(ps, flu) == preu + tail);
        assert(spec_kept(ps, fl) == pre + tail);
        lemma_tris_area2_add(preu, tail);
        lemma_tris_area2_add(pre, tail);
        assert(ps.drop_last()[t] == ps[t]);
    }
}

proof fn lemma_kept_area_push(ps: Seq<Seq<Point>>, fl: Seq<bool>, m: Seq<Point>)
    requires
        ps.len() == fl.len(),
    ensures
        tris_area2(spec_kept(ps.push(m), fl.push(false))) == tris_area2(spec_kept(ps, fl))
            + ring_area2(m),
{
    assert(ps.push(m).drop_last() =~= ps);
    assert(fl.push(false).drop_last() =~= fl);
    assert(spec_kept(ps.push(m), fl.push(false)) == spec_kept(ps, fl) + seq![m]);
    lemma_tris_area2_add(spec_kept(ps, fl), seq![m]);
    lemma_tris_area2_single(m);
}

proof fn lemma_merge_state_wf(ts: Seq<Seq<Point>>, rs: Seq<(Edge, (usize, usize))>, k: int)
    ensures
        spec_merge_state(ts, rs, k).0.len() == spec_merge_state(ts, rs, k).1.len(),
    decreases k,
{
    if k > 0 {
        lemma_merge_state_wf(ts, rs, k - 1);
    }
}

/// The decomposition conserves area end to end. Whenever every shared-edge
/// record the greedy pass reaches live is area-safe for the state it meets —
/// two distinct triangles of a proper triangulation bordering a common
/// diagonal always are — the doubled signed areas of the kept pieces sum to
/// the doubled signed area of the triangulated working ring.
pub proof fn lemma_decomposition_area(
    w: Seq<Point>,
    rs: Seq<(Edge, (usize, usize))>,
    k: int,
)
    requires
        spec_triangulate(w) is Some,
        0 <= k <= rs.len(),
        forall|q: int|
            0 <= q < k ==> step_area_ok(
                spec_merge_state(spec_triangulate(w)->Some_0, rs, q).0,
                spec_merge_state(spec_triangulate(w)->Some_0, rs, q).1,
                #[trigger] rs[q],
            ),
    ensures
        tris_area2(
            spec_kept(
                spec_merge_state(spec_triangulate(w)->Some_0, rs, k).0,
                spec_merge_state(spec_triangulate(w)->Some_0, rs, k).1,
            ),
        ) == area2(w),
    decreases k,
{
    let ts = spec_triangulate(w)->Some_0;
    if k == 0 {
        lemma_triangulation_area(w);
        let fl0 = Seq::new(ts.len(), |q: int| false);
        lemma_kept_all_false(ts, fl0);
    } else {
        lemma_decomposition_area(w, rs, k - 1);
        lemma_merge_state_wf(ts, rs, k - 1);
        let st = spec_merge_state(ts, rs, k - 1);
        let rec = rs[k - 1];
        let t1 = rec.1.0 as int;
        let t2 = rec.1.1 as int;
        assert(step_area_ok(st.0, st.1, rec));
        assert(spec_merge_state(ts, rs, k) == spec_merge_step(st.0, st.1, rec));
        if !(t1 >= st.0.len() || t2 >= st.0.len() || st.1[t1] || st.1[t2]) {
            let c1 = st.0[t1];
            let c2 = st.0[t2];
            lemma_merge_rings_area(c1, c2, rec.0);
            let m = spec_merge_rings(c1, c2, rec.0)->Some_0;
            if spec_convex_ring(m) {
                lemma_kept_area_update(st.0, st.1, t1);
                lemma_kept_area_update(st.0, st.1.update(t1, true), t2);
                lemma_kept_area_push(st.0, st.1.update(t1, true).update(t2, true), m);
            }
        }
    }
}

} // verus!
