//! Which edges cross which: candidates come from the spatial index, the
//! exact segment test decides.
use crate::geometry::tree::GraphGeoView;
use crate::geometry::{
    corners_envelope, edge_envelope, overlap_spec, edge_envelope_spec, same_segment, segments_intersect, EdgeGeo,
};
use crate::layout::{segments_of, GraphLayout};
use vstd::prelude::*;
use vstd::relations::injective_on;
use vstd::set_lib::{
    lemma_int_range, lemma_len_subset, lemma_map_size, lemma_set_disjoint_lens, set_int_range,
};

verus! {

/// `other` counts as crossing `edge`: the two segments meet and are not the
/// same segment.
pub open spec fn crosses(edge: EdgeGeo, other: EdgeGeo) -> bool {
    segments_intersect(edge, other) && !same_segment(edge, other)
}

/// The ids of the segments of `edges` that cross `g`.
pub open spec fn crossing_ids(edges: Map<u32, EdgeGeo>, g: EdgeGeo) -> Set<u32> {
    edges.dom().filter(|f: u32| crosses(g, edges[f]))
}

/// The ids of the segments of `edges` that some other segment of `edges`
/// crosses.
pub open spec fn crossed_ids(edges: Map<u32, EdgeGeo>) -> Set<u32> {
    edges.dom().filter(|e: u32| crossing_ids(edges, edges[e]).len() > 0)
}

/// The unordered pairs of distinct edges of `edges`, smaller id first, whose
/// segments intersect.
pub open spec fn intersecting_pairs(edges: Map<u32, EdgeGeo>) -> Set<(u32, u32)> {
    Set::new(
        |p: (u32, u32)|
            p.0 < p.1 && edges.contains_key(p.0) && edges.contains_key(p.1) && segments_intersect(
                edges[p.0],
                edges[p.1],
            ),
    )
}

pub open spec fn ordered(x: u32, y: u32) -> (u32, u32) {
    if x < y {
        (x, y)
    } else {
        (y, x)
    }
}

/// A duplicate-free sequence of `u32` has at most `2^32` items.
proof fn lemma_u32_seq_len(s: Seq<u32>)
    requires
        s.no_duplicates(),
    ensures
        s.len() <= 0x1_0000_0000,
{
    let f = |x: u32| x as int;
    let t = s.map_values(f);
    assert(t.no_duplicates()) by {
        assert forall|i: int, j: int| 0 <= i < t.len() && 0 <= j < t.len() && i != j implies t[i]
            != t[j] by {
            assert(s[i] != s[j]);
        }
    }
    t.unique_seq_to_set();
    lemma_int_range(0, 0x1_0000_0000);
    assert(t.to_set().subset_of(set_int_range(0, 0x1_0000_0000))) by {
        assert forall|x: int| t.to_set().contains(x) implies set_int_range(
            0,
            0x1_0000_0000,
        ).contains(x) by {
            let k = choose|k: int| 0 <= k < t.len() && t[k] == x;
            assert(t[k] == s[k] as int);
        }
    }
    lemma_len_subset(t.to_set(), set_int_range(0, 0x1_0000_0000));
}

/// The candidates, in order, whose segment crosses `edge`.
pub fn edge_intersects_edges(edge: EdgeGeo, edges: Vec<(u32, EdgeGeo)>) -> (r: Vec<(u32, EdgeGeo)>)
    requires
        edge.wf(),
        forall|k: int| 0 <= k < edges.len() ==> (#[trigger] edges@[k]).1.wf(),
    ensures
        r@ == edges@.filter(|c: (u32, EdgeGeo)| crosses(edge, c.1)),
{
    let mut out: Vec<(u32, EdgeGeo)> = Vec::new();
    let mut i: usize = 0;
    while i < edges.len()
        invariant
            edge.wf(),
            forall|k: int| 0 <= k < edges.len() ==> (#[trigger] edges@[k]).1.wf(),
            0 <= i <= edges.len(),
            out@ == edges@.subrange(0, i as int).filter(|c: (u32, EdgeGeo)| crosses(edge, c.1)),
        decreases edges.len() - i,
    {
        let c = edges[i];
        proof {
            assert(edges@.subrange(0, i + 1) == edges@.subrange(0, i as int).push(c));
            edges@.subrange(0, i as int).lemma_filter_push(c, |c: (u32, EdgeGeo)| crosses(edge, c.1));
        }
        let same = edge.eq(&c.1);
        let hit = edge.intersects(&c.1) && !same;
        assert(same == same_segment(edge, c.1));
        assert(hit == crosses(edge, c.1));
        if hit {
            out.push(c);
        }
        i = i + 1;
    }
    proof {
        assert(edges@.subrange(0, edges.len() as int) == edges@);
    }
    out
}

/// What a filter keeps comes from the sequence, and a sequence free of
/// duplicates stays so.
proof fn lemma_filter_from<A>(s: Seq<A>, p: spec_fn(A) -> bool)
    ensures
        forall|x: A| #[trigger] s.filter(p).contains(x) ==> s.contains(x) && p(x),
        s.no_duplicates() ==> s.filter(p).no_duplicates(),
    decreases s.len(),
{
    if s.len() > 0 {
        let t = s.drop_last();
        let x = s.last();
        assert(s == t.push(x));
        lemma_filter_from(t, p);
        t.lemma_filter_push(x, p);
        assert(s.filter(p) == if p(x) {
            t.filter(p).push(x)
        } else {
            t.filter(p)
        });
        assert forall|y: A| #[trigger] s.filter(p).contains(y) implies s.contains(y) && p(y) by {
            if t.filter(p).contains(y) {
                assert(t.contains(y));
                let k = choose|k: int| 0 <= k < t.len() && t[k] == y;
                assert(s[k] == y);
            } else {
                assert(y == x);
                assert(s[s.len() - 1] == x);
            }
        }
        if s.no_duplicates() {
            assert(t.no_duplicates());
            if p(x) && t.filter(p).contains(x) {
                assert(t.contains(x));
                let k = choose|k: int| 0 <= k < t.len() && t[k] == x;
                assert(s[k] == s[s.len() - 1]);
            }
        }
    } else {
        reveal(Seq::filter);
    }
}

/// Counting the matches in a duplicate-free sequence counts a set.
proof fn lemma_count_is_set_len<A>(s: Seq<A>, set: Set<A>)
    requires
        s.no_duplicates(),
        forall|x: A| #[trigger] s.contains(x) <==> set.contains(x),
    ensures
        s.len() == set.len(),
{
    s.unique_seq_to_set();
    assert(s.to_set() =~= set);
}

/// An edge never counts as crossing itself.
pub proof fn lemma_self_excluded(edges: Map<u32, EdgeGeo>, e: u32)
    requires
        edges.contains_key(e),
    ensures
        !crosses(edges[e], edges[e]),
        !crossing_ids(edges, edges[e]).contains(e),
{
}

/// The segment test does not depend on which segment comes first.
pub proof fn lemma_intersect_symmetric(a: EdgeGeo, b: EdgeGeo)
    ensures
        segments_intersect(a, b) == segments_intersect(b, a),
{
}

/// The indexed count and the pairwise count agree: the edges that cross edge
/// `e` are exactly those that form an intersecting pair with it, leaving out
/// `e` itself and any edge with the same segment.
pub proof fn lemma_indexed_agrees_with_pairs(edges: Map<u32, EdgeGeo>, e: u32)
    requires
        edges.contains_key(e),
    ensures
        crossing_ids(edges, edges[e]) == Set::new(
            |f: u32|
                f != e && intersecting_pairs(edges).contains(ordered(e, f)) && !same_segment(
                    edges[e],
                    edges[f],
                ),
        ),
{
    assert forall|f: u32|
        crossing_ids(edges, edges[e]).contains(f) <==> (f != e && intersecting_pairs(
            edges,
        ).contains(ordered(e, f)) && !same_segment(edges[e], edges[f])) by {
        lemma_intersect_symmetric(edges[e], edges[f]);
    }
    assert(crossing_ids(edges, edges[e]) =~= Set::new(
        |f: u32|
            f != e && intersecting_pairs(edges).contains(ordered(e, f)) && !same_segment(
                edges[e],
                edges[f],
            ),
    ));
}

/// The sum, over the edges listed in `ids`, of how many edges cross each.
pub open spec fn crossings_sum(edges: Map<u32, EdgeGeo>, ids: Seq<u32>) -> int
    decreases ids.len(),
{
    if ids.len() == 0 {
        0
    } else {
        crossings_sum(edges, ids.drop_last()) + crossing_ids(edges, edges[ids.last()]).len()
    }
}

/// The ordered pairs `(e, f)` with `e` in `from` and `f` crossing `e`.
pub open spec fn crossing_pairs_from(edges: Map<u32, EdgeGeo>, from: Set<u32>) -> Set<(u32, u32)> {
    Set::new(|p: (u32, u32)| from.contains(p.0) && crossing_ids(edges, edges[p.0]).contains(p.1))
}

proof fn lemma_row(edges: Map<u32, EdgeGeo>, x: u32)
    requires
        edges.dom().finite(),
    ensures
        Set::new(
            |p: (u32, u32)| p.0 == x && crossing_ids(edges, edges[x]).contains(p.1),
        ).finite(),
        Set::new(|p: (u32, u32)| p.0 == x && crossing_ids(edges, edges[x]).contains(p.1)).len()
            == crossing_ids(edges, edges[x]).len(),
{
    let row = crossing_ids(edges, edges[x]);
    lemma_len_subset(row, edges.dom());
    let f = |y: u32| (x, y);
    let target = Set::new(|p: (u32, u32)| p.0 == x && row.contains(p.1));
    assert(injective_on(f, row));
    assert forall|p: (u32, u32)| target.contains(p) implies row.map(f).contains(p) by {
        assert(row.contains(p.1) && p == f(p.1));
    }
    assert(row.map(f) =~= target);
    lemma_map_size(row, target, f);
}

proof fn lemma_sum_counts_pairs(edges: Map<u32, EdgeGeo>, ids: Seq<u32>)
    requires
        edges.dom().finite(),
        ids.no_duplicates(),
    ensures
        crossing_pairs_from(edges, ids.to_set()).finite(),
        crossings_sum(edges, ids) == crossing_pairs_from(edges, ids.to_set()).len(),
    decreases ids.len(),
{
    if ids.len() == 0 {
        assert(crossing_pairs_from(edges, ids.to_set()) =~= Set::<(u32, u32)>::empty());
    } else {
        let t = ids.drop_last();
        let x = ids.last();
        assert(ids == t.push(x));
        assert(t.no_duplicates());
        lemma_sum_counts_pairs(edges, t);
        let a = crossing_pairs_from(edges, t.to_set());
        let b = Set::new(|p: (u32, u32)| p.0 == x && crossing_ids(edges, edges[x]).contains(p.1));
        lemma_row(edges, x);
        assert(ids.to_set() =~= t.to_set().insert(x)) by {
            assert forall|y: u32| ids.to_set().contains(y) == t.to_set().insert(x).contains(y) by {
                if ids.contains(y) && y != x {
                    let k = choose|k: int| 0 <= k < ids.len() && ids[k] == y;
                    assert(t[k] == y);
                }
                if t.contains(y) {
                    let k = choose|k: int| 0 <= k < t.len() && t[k] == y;
                    assert(ids[k] == y);
                }
                if y == x {
                    assert(ids[ids.len() - 1] == x);
                }
            }
        }
        assert(!t.to_set().contains(x)) by {
            if t.contains(x) {
                let k = choose|k: int| 0 <= k < t.len() && t[k] == x;
                assert(ids[k] == ids[ids.len() - 1]);
            }
        }
        assert(crossing_pairs_from(edges, ids.to_set()) =~= a + b);
        assert(a.disjoint(b));
        lemma_set_disjoint_lens(a, b);
    }
}

/// Counting per edge counts every intersecting pair twice: when no two
/// distinct edges have the same segment, the crossing counts of all edges
/// (listed once each in `ids`) add up to twice the number of intersecting
/// pairs.
pub proof fn lemma_sum_is_twice_pairs(edges: Map<u32, EdgeGeo>, ids: Seq<u32>)
    requires
        edges.dom().finite(),
        ids.no_duplicates(),
        ids.to_set() == edges.dom(),
        forall|e: u32, f: u32|
            edges.contains_key(e) && edges.contains_key(f) && e != f ==> !same_segment(
                #[trigger] edges[e],
                #[trigger] edges[f],
            ),
    ensures
        crossings_sum(edges, ids) == 2 * intersecting_pairs(edges).len(),
{
    lemma_sum_counts_pairs(edges, ids);
    let o = crossing_pairs_from(edges, ids.to_set());
    let p = intersecting_pairs(edges);
    let q = Set::new(|x: (u32, u32)| p.contains((x.1, x.0)));
    assert forall|x: (u32, u32)| #[trigger] o.contains(x) == (p + q).contains(x) by {
        lemma_intersect_symmetric(edges[x.0], edges[x.1]);
    }
    assert(o =~= p + q);
    assert(p.disjoint(q));
    lemma_len_subset(p, o);
    lemma_len_subset(q, o);
    let swap = |x: (u32, u32)| (x.1, x.0);
    assert(injective_on(swap, p));
    assert forall|x: (u32, u32)| q.contains(x) implies p.map(swap).contains(x) by {
        assert(p.contains((x.1, x.0)) && x == swap((x.1, x.0)));
    }
    assert(p.map(swap) =~= q);
    lemma_map_size(p, q, swap);
    lemma_set_disjoint_lens(p, q);
}

impl GraphLayout {
    /// The segments the session holds, by edge id.
    pub open spec fn segments(&self) -> Map<u32, EdgeGeo> {
        segments_of(self@.edges, self@.positions)
    }

    /// How many other edges cross edge `edge_index` (0 when it has no
    /// segment). Candidates are only the edges whose bounding box meets its
    /// own, which loses none: crossing segments have meeting boxes.
    pub fn count_edge_intersections(&self, edge_index: u32) -> (r: usize)
        requires
            self.wf(),
        ensures
            r == (if self.segments().contains_key(edge_index) {
                crossing_ids(self.segments(), self.segments()[edge_index]).len()
            } else {
                0
            }),
    {
        match self.edge_geo(edge_index) {
            Some(edge) => {
                let env = edge_envelope(&edge);
                proof {
                    self.lemma_geo_wf();
                }
                let cands = self.graph_geo.edges_in_envelope(&env);
                proof {
                    assert(self@.positions.contains_key(self@.edges[edge_index].0));
                    assert(self@.positions.contains_key(self@.edges[edge_index].1));
                    assert forall|k: int| 0 <= k < cands.len() implies (#[trigger] cands@[k]).1.wf() by {
                        assert(self.graph_geo@.edges.contains_key(cands@[k].0));
                    }
                }
                let found = edge_intersects_edges(edge, cands);
                proof {
                    let edges = self.segments();
                    let pred = |c: (u32, EdgeGeo)| crosses(edge, c.1);
                    assert(corners_envelope(env.lower, env.upper) == env);
                    assert(cands@.no_duplicates()) by {
                        assert forall|k1: int, k2: int|
                            0 <= k1 < cands.len() && 0 <= k2 < cands.len() && k1 != k2 implies cands@[k1]
                            != cands@[k2] by {
                            assert(cands@[k1].0 != cands@[k2].0);
                        }
                    }
                    lemma_filter_from(cands@, pred);
                    let ids = found@.map_values(|c: (u32, EdgeGeo)| c.0);
                    assert forall|k1: int, k2: int|
                        0 <= k1 < ids.len() && 0 <= k2 < ids.len() && k1 != k2 implies ids[k1]
                        != ids[k2] by {
                        assert(found@.contains(found@[k1]));
                        assert(found@.contains(found@[k2]));
                        let j1 = choose|j: int| 0 <= j < cands.len() && cands@[j] == found@[k1];
                        let j2 = choose|j: int| 0 <= j < cands.len() && cands@[j] == found@[k2];
                        assert(self.graph_geo@.edges[cands@[j1].0] == cands@[j1].1);
                        assert(self.graph_geo@.edges[cands@[j2].0] == cands@[j2].1);
                    }
                    assert forall|x: u32| #[trigger]
                        ids.contains(x) <==> crossing_ids(edges, edge).contains(x) by {
                        if ids.contains(x) {
                            let k = choose|k: int| 0 <= k < ids.len() && ids[k] == x;
                            assert(found@.contains(found@[k]));
                            let j = choose|j: int| 0 <= j < cands.len() && cands@[j] == found@[k];
                            assert(self.graph_geo@.edges[cands@[j].0] == cands@[j].1);
                            assert(pred(found@[k]));
                        }
                        if crossing_ids(edges, edge).contains(x) {
                            assert(edges.contains_key(x));
                            assert(crosses(edge, edges[x]));
                            assert(self.graph_geo@.edges.contains_key(x));
                            assert(overlap_spec(edge_envelope_spec(self.graph_geo@.edges[x]), env));
                            let k = choose|k: int| 0 <= k < cands.len() && #[trigger] cands@[k].0 == x;
                            assert(cands@[k] == (x, edges[x]));
                            assert(pred(cands@[k]));
                            assert(found@.contains(cands@[k]));
                            let m = choose|m: int| 0 <= m < found.len() && found@[m] == cands@[k];
                            assert(ids[m] == x);
                        }
                    }
                    lemma_count_is_set_len(ids, crossing_ids(edges, edge));
                }
                found.len()
            },
            None => 0,
        }
    }

    /// How many edges are crossed by at least one other edge, by the indexed
    /// count of each.
    pub fn count_edges_intersections(&self) -> (r: usize)
        requires
            self.wf(),
        ensures
            r == crossed_ids(self.segments()).len(),
    {
        let ids = self.edge_ids();
        let ghost segs = self.segments();
        let ghost p = |e: u32| segs.contains_key(e) && crossing_ids(segs, segs[e]).len() > 0;
        let mut count: usize = 0;
        let mut i: usize = 0;
        while i < ids.len()
            invariant
                self.wf(),
                segs == self.segments(),
                p == (|e: u32| segs.contains_key(e) && crossing_ids(segs, segs[e]).len() > 0),
                0 <= i <= ids.len(),
                count <= i,
                count == ids@.subrange(0, i as int).filter(p).len(),
            decreases ids.len() - i,
        {
            let e = ids[i];
            let n = self.count_edge_intersections(e);
            proof {
                assert(ids@.subrange(0, i + 1) == ids@.subrange(0, i as int).push(e));
                ids@.subrange(0, i as int).lemma_filter_push(e, p);
                assert((n > 0) == p(e));
            }
            if n > 0 {
                count = count + 1;
            }
            i = i + 1;
        }
        proof {
            assert(ids@.subrange(0, ids.len() as int) == ids@);
            let chosen = ids@.filter(p);
            lemma_filter_from(ids@, p);
            assert forall|x: u32| #[trigger]
                chosen.contains(x) <==> crossed_ids(segs).contains(x) by {
                if crossed_ids(segs).contains(x) {
                    assert(ids@.contains(x));
                    let k = choose|k: int| 0 <= k < ids.len() && ids@[k] == x;
                    ids@.lemma_filter_contains(p, k);
                }
            }
            lemma_count_is_set_len(chosen, crossed_ids(segs));
        }
        count
    }

    /// How many unordered pairs of edges have intersecting segments, by
    /// testing every pair.
    pub fn count_graph_intersections(&self) -> (r: u64)
        requires
            self.wf(),
        ensures
            r == intersecting_pairs(self.segments()).len(),
    {
        let list = self.indexed_edge_list();
        let n = list.len();
        let ghost segs = self.segments();
        let ghost mut found: Seq<(u32, u32)> = Seq::empty();
        let ghost mut sa: Seq<int> = Seq::empty();
        let ghost mut sb: Seq<int> = Seq::empty();
        proof {
            let ids = list@.map_values(|c: (u32, EdgeGeo)| c.0);
            assert(ids.no_duplicates()) by {
                assert forall|a: int, b: int| 0 <= a < ids.len() && 0 <= b < ids.len() && a != b implies ids[a]
                    != ids[b] by {
                    assert(list@[a].0 != list@[b].0);
                }
            }
            lemma_u32_seq_len(ids);
            assert forall|k: int| 0 <= k < n implies (#[trigger] list@[k]).1.wf() by {
                let e = list@[k].0;
                assert(segs.contains_key(e));
                assert(self@.positions.contains_key(self@.edges[e].0));
                assert(self@.positions.contains_key(self@.edges[e].1));
            }
        }
        let mut count: u64 = 0;
        let mut i: usize = 0;
        while i < n
            invariant
                n == list.len(),
                n <= 0x1_0000_0000,
                segs == self.segments(),
                forall|a: int, b: int|
                    0 <= a < n && 0 <= b < n && a != b ==> #[trigger] list@[a].0
                        != #[trigger] list@[b].0,
                forall|k: int|
                    0 <= k < n ==> segs.contains_key(#[trigger] list@[k].0) && segs[list@[k].0]
                        == list@[k].1,
                forall|k: int| 0 <= k < n ==> (#[trigger] list@[k]).1.wf(),
                0 <= i <= n,
                count == found.len(),
                count <= i * n,
                found.len() == sa.len() && found.len() == sb.len(),
                forall|k: int|
                    0 <= k < found.len() ==> 0 <= #[trigger] sa[k] < sb[k] < n && sa[k] < i
                        && found[k] == ordered(list@[sa[k]].0, list@[sb[k]].0),
                forall|k: int| 0 <= k < found.len() ==> intersecting_pairs(segs).contains(#[trigger] found[k]),
                forall|a: int, b: int|
                    0 <= a < b < n && a < i && segments_intersect(
                        segs[ordered(list@[a].0, list@[b].0).0],
                        segs[ordered(list@[a].0, list@[b].0).1],
                    ) ==> found.contains(#[trigger] ordered(list@[a].0, #[trigger] list@[b].0)),
                found.no_duplicates(),
            decreases n - i,
        {
            let mut j: usize = i + 1;
            while j < n
                invariant
                    n == list.len(),
                    n <= 0x1_0000_0000,
                    segs == self.segments(),
                    forall|a: int, b: int|
                        0 <= a < n && 0 <= b < n && a != b ==> #[trigger] list@[a].0
                            != #[trigger] list@[b].0,
                    forall|k: int|
                        0 <= k < n ==> segs.contains_key(#[trigger] list@[k].0) && segs[list@[k].0]
                            == list@[k].1,
                    forall|k: int| 0 <= k < n ==> (#[trigger] list@[k]).1.wf(),
                    0 <= i < n,
                    i + 1 <= j <= n,
                    count == found.len(),
                    count <= i * n + j,
                    found.len() == sa.len() && found.len() == sb.len(),
                    forall|k: int|
                        0 <= k < found.len() ==> 0 <= #[trigger] sa[k] < sb[k] < n && (sa[k] < i
                            || (sa[k] == i && sb[k] < j)) && found[k] == ordered(
                            list@[sa[k]].0,
                            list@[sb[k]].0,
                        ),
                    forall|k: int| 0 <= k < found.len() ==> intersecting_pairs(segs).contains(#[trigger] found[k]),
                    forall|a: int, b: int|
                        0 <= a < b < n && (a < i || (a == i && b < j)) && segments_intersect(
                            segs[ordered(list@[a].0, list@[b].0).0],
                            segs[ordered(list@[a].0, list@[b].0).1],
                        ) ==> found.contains(#[trigger] ordered(list@[a].0, #[trigger] list@[b].0)),
                    found.no_duplicates(),
                decreases n - j,
            {
                let ghost before = found;
                let (x, gx) = list[i];
                let (y, gy) = list[j];
                let hit = if x < y {
                    gx.intersects(&gy)
                } else {
                    gy.intersects(&gx)
                };
                if hit {
                    assert(count + 1 <= u64::MAX) by (nonlinear_arith)
                        requires
                            count <= i * n + j,
                            i < j < n,
                            n <= 0x1_0000_0000,
                    ;
                    proof {
                        let np = ordered(x, y);
                        assert(!found.contains(np)) by {
                            if found.contains(np) {
                                let k = choose|k: int| 0 <= k < found.len() && found[k] == np;
                                assert(found[k] == ordered(list@[sa[k]].0, list@[sb[k]].0));
                            }
                        }
                        found = found.push(np);
                        sa = sa.push(i as int);
                        sb = sb.push(j as int);
                    }
                    count = count + 1;
                }
                proof {
                    assert forall|a: int, b: int|
                        0 <= a < b < n && (a < i || (a == i && b < j + 1)) && segments_intersect(
                            segs[ordered(list@[a].0, list@[b].0).0],
                            segs[ordered(list@[a].0, list@[b].0).1],
                        ) implies found.contains(#[trigger] ordered(list@[a].0, #[trigger] list@[b].0)) by {
                        if a == i && b == j {
                            assert(hit);
                            assert(found[found.len() - 1] == ordered(list@[a].0, list@[b].0));
                        } else {
                            let q = ordered(list@[a].0, list@[b].0);
                            assert(before.contains(q));
                            let k = choose|k: int| 0 <= k < before.len() && before[k] == q;
                            assert(found[k] == q);
                        }
                    }
                }
                j = j + 1;
            }
            assert(count <= (i + 1) * n) by (nonlinear_arith)
                requires
                    count <= i * n + n,
            ;
            i = i + 1;
        }
        proof {
            assert forall|q: (u32, u32)| #[trigger]
                found.contains(q) <==> intersecting_pairs(segs).contains(q) by {
                if intersecting_pairs(segs).contains(q) {
                    let a0 = self.lemma_listed(list@, q.0);
                    let b0 = self.lemma_listed(list@, q.1);
                    if a0 < b0 {
                        assert(ordered(list@[a0].0, list@[b0].0) == q);
                    } else {
                        assert(ordered(list@[b0].0, list@[a0].0) == q);
                    }
                }
            }
            lemma_count_is_set_len(found, intersecting_pairs(segs));
        }
        count
    }
}

} // verus!
