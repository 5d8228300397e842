//! Prim's minimum spanning tree: grow one tree from a start vertex, always
//! taking the lightest edge crossing the cut between tree and non-tree
//! vertices, ties broken by edge identity.

use vstd::prelude::*;
use crate::algs::in_list;
use crate::algs::lemma_adj_bridge;
use crate::algs::pair_adj;
use crate::algs::pair_conn;
use crate::algs::pair_walk;
use crate::algs::unmarked_count;
use crate::algs::lemma_unmarked_count_bounds;
use crate::algs::lemma_unmarked_count_update;
use crate::graphs::Incidence;
use crate::graphs::lemma_connected_refl;
use crate::graphs::connected_pair;
use crate::graphs::lemma_connected_step;
use crate::kruskal::edge_pair_of;
use crate::kruskal::is_forest;
use crate::kruskal::lemma_forest_push;
use crate::kruskal::pairs_of;
use crate::props::PropMap;
use crate::static_graph::StaticEdge;
use crate::static_graph::StaticGraph;
use crate::static_graph::mate;

verus! {

/// No pair list whose endpoints are all marked can connect a marked vertex
/// to an unmarked one.
proof fn lemma_no_walk_out(ps: Seq<(int, int)>, m: Seq<bool>, u: int, v: int)
    requires
        forall|k: int|
            0 <= k < ps.len() ==> {
                let p = #[trigger] ps[k];
                0 <= p.0 < m.len() && 0 <= p.1 < m.len() && m[p.0] && m[p.1]
            },
        0 <= u < m.len(),
        0 <= v < m.len(),
        m[u],
        !m[v],
    ensures
        !pair_conn(ps, u, v),
{
    if pair_conn(ps, u, v) {
        let p = choose|p: Seq<int>| pair_walk(ps, p, u, v);
        if p.len() == 1 {
            assert(u == v);
        } else {
            let k = p.len() - 2;
            assert(pair_adj(ps, p[k], p[k + 1]));
            let j = choose|j: int|
                0 <= j < ps.len() && ((#[trigger] ps[j]) == (p[k], v) || ps[j] == (v, p[k]));
        }
        assert(false);
    }
}

/// A marking that no listed pair crosses swallows every pair walk: what a
/// walk from a marked vertex reaches is marked too.
proof fn lemma_closed_pairs_cover(ps: Seq<(int, int)>, m: Seq<bool>, p: Seq<int>, u: int, w: int)
    requires
        forall|k: int|
            0 <= k < ps.len() ==> {
                let q = #[trigger] ps[k];
                0 <= q.0 < m.len() && 0 <= q.1 < m.len() && (m[q.0] <==> m[q.1])
            },
        0 <= u < m.len(),
        m[u],
        pair_walk(ps, p, u, w),
    ensures
        0 <= w < m.len() && m[w],
    decreases p.len(),
{
    if p.len() == 1 {
    } else {
        let x = p[1];
        assert(pair_adj(ps, u, x));
        let j = choose|j: int|
            0 <= j < ps.len() && ((#[trigger] ps[j]) == (u, x) || ps[j] == (x, u));
        assert(m[x]);
        let q = p.skip(1);
        assert(q[0] == x && q[q.len() - 1] == w);
        assert forall|k: int| 0 <= k < q.len() - 1 implies pair_adj(ps, #[trigger] q[k], q[k + 1]) by {
            assert(pair_adj(ps, p[k + 1], p[k + 2]));
        }
        assert(pair_walk(ps, q, x, w));
        lemma_closed_pairs_cover(ps, m, q, x, w);
    }
}

/// An unmarked slot keeps the unmarked count positive.
proof fn lemma_unmarked_at(s: Seq<bool>, i: int)
    requires
        0 <= i < s.len(),
        !s[i],
    ensures
        unmarked_count(s) >= 1,
    decreases s.len(),
{
    if i == s.len() - 1 {
        lemma_unmarked_count_bounds(s.drop_last());
    } else {
        lemma_unmarked_at(s.drop_last(), i);
    }
}

/// An all-unmarked map counts its whole length.
proof fn lemma_unmarked_full(s: Seq<bool>)
    requires
        forall|i: int| 0 <= i < s.len() ==> !s[i],
    ensures
        unmarked_count(s) == s.len(),
    decreases s.len(),
{
    if s.len() > 0 {
        assert forall|i: int| 0 <= i < s.drop_last().len() implies !s.drop_last()[i] by {
            assert(!s[i]);
        }
        lemma_unmarked_full(s.drop_last());
    }
}

/// The tree the first `k` picked edges cover: the start vertex and each
/// picked edge's entered end.
pub open spec fn prim_tree_has(
    g: &StaticGraph,
    r: Seq<StaticEdge>,
    k: int,
    start: int,
    v: int,
) -> bool {
    v == start || exists|j: int| 0 <= j < k && (#[trigger] pairs_of(g, r)[j]).1 == v
}

/// Edge index `d` crosses the cut of the tree the first `k` picks cover.
pub open spec fn prim_crossing(g: &StaticGraph, r: Seq<StaticEdge>, k: int, start: int, d: int) -> bool {
    prim_tree_has(g, r, k, start, g.edge_pairs()[d].0) != prim_tree_has(
        g,
        r,
        k,
        start,
        g.edge_pairs()[d].1,
    )
}

/// The spanning tree of the start vertex's component: repeatedly add the
/// lightest edge crossing the cut between tree and non-tree vertices,
/// oriented from the tree to the new vertex, until no edge crosses.  The
/// accepted edges form a forest inside the start vertex's component, and
/// every vertex of that component except the start is entered by exactly
/// its discovery edge's target end.
pub fn prim(g: &StaticGraph, weight: &PropMap<u64>, start: usize) -> (r: Vec<StaticEdge>)
    requires
        g.inv(),
        start < g.spec_n(),
        weight@.len() == g.spec_num_edges(),
    ensures
        r@.len() < g.spec_n(),
        forall|k: int| 0 <= k < r@.len() ==> g.view_wf((#[trigger] r@[k]).0 as int),
        is_forest(pairs_of(g, r@)),
        forall|k: int|
            0 <= k < r@.len() ==> connected_pair(
                g,
                start as int,
                (#[trigger] pairs_of(g, r@)[k]).0,
            ) && connected_pair(g, start as int, pairs_of(g, r@)[k].1),
        forall|v: int|
            0 <= v < g.spec_n() && connected_pair(g, start as int, v) && v != start ==> exists|
                k: int,
            |
                0 <= k < r@.len() && (#[trigger] pairs_of(g, r@)[k]).1 == v,
        forall|k: int|
            0 <= k < r@.len() ==> ({
                let d = (#[trigger] r@[k]).0 as int / 2;
                &&& prim_crossing(g, r@, k, start as int, d)
                &&& forall|d2: int|
                    0 <= d2 < g.spec_num_edges() && prim_crossing(g, r@, k, start as int, d2)
                        ==> weight@[d] < weight@[d2] || (weight@[d] == weight@[d2] && d <= d2)
            }),
{
    let n = g.num_vertices();
    let m = g.num_edges();
    let mut in_tree = PropMap::with_default(n, false);
    proof {
        lemma_unmarked_full(in_tree@);
        lemma_unmarked_count_update(in_tree@, start as int, true);
        lemma_connected_refl(g, start as int);
    }
    in_tree.set(start, true);
    let mut r: Vec<StaticEdge> = Vec::new();
    let mut added: usize = 1;
    while added < n
        invariant
            g.inv(),
            n == g.spec_n(),
            m == g.spec_num_edges(),
            in_tree@.len() == n,
            weight@.len() == m,
            1 <= added <= n,
            r@.len() < added,
            added == n - unmarked_count(in_tree@),
            in_tree@[start as int],
            forall|v: int| 0 <= v < n && #[trigger] in_tree@[v] ==> connected_pair(g, start as int, v),
            forall|v: int|
                0 <= v < n && #[trigger] in_tree@[v] && v != start ==> exists|k: int|
                    0 <= k < r@.len() && (#[trigger] pairs_of(g, r@)[k]).1 == v,
            forall|k: int| 0 <= k < r@.len() ==> g.view_wf((#[trigger] r@[k]).0 as int),
            forall|k: int|
                0 <= k < r@.len() ==> {
                    let p = #[trigger] pairs_of(g, r@)[k];
                    0 <= p.0 < n && 0 <= p.1 < n && in_tree@[p.0] && in_tree@[p.1]
                },
            is_forest(pairs_of(g, r@)),
            forall|k: int|
                0 <= k < r@.len() ==> ({
                    let d = (#[trigger] r@[k]).0 as int / 2;
                    &&& prim_crossing(g, r@, k, start as int, d)
                    &&& forall|d2: int|
                        0 <= d2 < m && prim_crossing(g, r@, k, start as int, d2) ==> weight@[d]
                            < weight@[d2] || (weight@[d] == weight@[d2] && d <= d2)
                }),
        decreases n - added,
    {
        let mut best: usize = m;
        let mut best_w: u64 = 0;
        let mut j: usize = 0;
        while j < m
            invariant
                g.inv(),
                n == g.spec_n(),
                m == g.spec_num_edges(),
                in_tree@.len() == n,
                j <= m,
                best <= m,
                best < m ==> best_w == weight@[best as int],
                best < m ==> best < j,
                best < m ==> in_tree@[g.edge_pairs()[best as int].0] != in_tree@[g.edge_pairs()[
                    best as int].1],
                best < m ==> forall|j2: int|
                    0 <= j2 < j && (in_tree@[(#[trigger] g.edge_pairs()[j2]).0] != in_tree@[
                        g.edge_pairs()[j2].1]) ==> weight@[best as int] < weight@[j2] || (weight@[
                        best as int] == weight@[j2] && best <= j2),
                best == m ==> forall|j2: int|
                    0 <= j2 < j ==> (in_tree@[(#[trigger] g.edge_pairs()[j2]).0] <==> in_tree@[
                        g.edge_pairs()[j2].1]),
                weight@.len() == m,
            decreases m - j,
        {
            let (u, v) = g.pair_at(j);
            let crossing = in_tree.get(u) != in_tree.get(v);
            if crossing {
                let w = weight.get(j);
                if best == m || w < best_w {
                    best = j;
                    best_w = w;
                }
            }
            j = j + 1;
        }
        if best == m {
            // No edge crosses the cut: the tree already swallows the whole
            // component of the start vertex.
            proof {
                assert forall|v: int|
                    0 <= v < n && connected_pair(g, start as int, v) implies in_tree@[v] by {
                    crate::algs::lemma_conn_bridge(g, start as int, v);
                    let p = choose|p: Seq<int>| pair_walk(g.edge_pairs(), p, start as int, v);
                    lemma_closed_pairs_cover(g.edge_pairs(), in_tree@, p, start as int, v);
                }
            }
            return r;
        }
        let (u, v) = g.pair_at(best);
        let ghost r0 = r@;
        let ghost c_in0 = in_tree@;
        let e = if in_tree.get(u) {
            StaticEdge(2 * best + 1)
        } else {
            StaticEdge(2 * best)
        };
        proof {
            assert(mate(2 * best + 1) == 2 * best && mate(2 * best) == 2 * best + 1);
            let su = g.edge_source(e);
            let tv = g.edge_target(e);
            assert(in_tree@[su] && !in_tree@[tv]);
            lemma_no_walk_out(pairs_of(g, r0), in_tree@, su, tv);
            lemma_forest_push(g, r0, e, su, tv);
            lemma_adj_bridge(g, su, tv);
            lemma_connected_step(g, start as int, su, tv);
            lemma_unmarked_at(in_tree@, tv);
            lemma_unmarked_count_update(in_tree@, tv, true);
        }
        r.push(e);
        if in_tree.get(u) {
            in_tree.set(v, true);
        } else {
            in_tree.set(u, true);
        }
        proof {
            assert(pairs_of(g, r@) =~= pairs_of(g, r0).push(edge_pair_of(g, e)));
            assert(pairs_of(g, r@)[r@.len() - 1].1 == g.edge_target(e));
            assert forall|k: int| 0 <= k < r@.len() implies {
                let p = #[trigger] pairs_of(g, r@)[k];
                0 <= p.0 < n && 0 <= p.1 < n && in_tree@[p.0] && in_tree@[p.1]
            } by {
                if k < r0.len() {
                    assert(pairs_of(g, r0)[k] == pairs_of(g, r@)[k]);
                }
            }
            assert forall|v2: int|
                0 <= v2 < n && #[trigger] in_tree@[v2] && v2 != start implies exists|k: int|
                0 <= k < r@.len() && (#[trigger] pairs_of(g, r@)[k]).1 == v2 by {
                if v2 == g.edge_target(e) {
                    assert((pairs_of(g, r@)[r@.len() - 1]).1 == v2);
                } else {
                    let k = choose|k: int|
                        0 <= k < r0.len() && (#[trigger] pairs_of(g, r0)[k]).1 == v2;
                    assert((pairs_of(g, r@)[k]).1 == v2);
                }
            }
            // The tree covered by the first `k` picks is what `in_tree`
            // held before this pick, so the scan's minimality carries over.
            assert forall|kk: int, v2: int|
                0 <= kk <= r0.len() && 0 <= v2 < n implies (#[trigger] prim_tree_has(
                g,
                r@,
                kk,
                start as int,
                v2,
            ) == prim_tree_has(g, r0, kk, start as int, v2)) by {
                if prim_tree_has(g, r@, kk, start as int, v2) && v2 != start {
                    let jj = choose|jj: int|
                        0 <= jj < kk && (#[trigger] pairs_of(g, r@)[jj]).1 == v2;
                    assert(pairs_of(g, r0)[jj] == pairs_of(g, r@)[jj]);
                }
                if prim_tree_has(g, r0, kk, start as int, v2) && v2 != start {
                    let jj = choose|jj: int|
                        0 <= jj < kk && (#[trigger] pairs_of(g, r0)[jj]).1 == v2;
                    assert(pairs_of(g, r@)[jj] == pairs_of(g, r0)[jj]);
                }
            }
            assert forall|v2: int|
                0 <= v2 < n implies (#[trigger] prim_tree_has(g, r0, r0.len() as int, start as int, v2)
                == c_in0[v2]) by {
                if prim_tree_has(g, r0, r0.len() as int, start as int, v2) && v2 != start {
                    let jj = choose|jj: int|
                        0 <= jj < r0.len() && (#[trigger] pairs_of(g, r0)[jj]).1 == v2;
                }
            }
            assert(prim_crossing(g, r@, r0.len() as int, start as int, best as int));
            assert forall|k: int|
                0 <= k < r@.len() implies ({
                let d = (#[trigger] r@[k]).0 as int / 2;
                &&& prim_crossing(g, r@, k, start as int, d)
                &&& forall|d2: int|
                    0 <= d2 < m && prim_crossing(g, r@, k, start as int, d2) ==> weight@[d]
                        < weight@[d2] || (weight@[d] == weight@[d2] && d <= d2)
            }) by {
                if k < r0.len() {
                    assert(r@[k] == r0[k]);
                    let d = (r0[k]).0 as int / 2;
                    assert(prim_crossing(g, r0, k, start as int, d));
                    assert forall|d2: int|
                        0 <= d2 < m && prim_crossing(g, r@, k, start as int, d2) implies weight@[d]
                        < weight@[d2] || (weight@[d] == weight@[d2] && d <= d2) by {
                        assert(prim_crossing(g, r0, k, start as int, d2));
                    }
                } else {
                    assert((r@[k]).0 as int / 2 == best as int);
                    assert forall|d2: int|
                        0 <= d2 < m && prim_crossing(g, r@, k, start as int, d2) implies weight@[
                        best as int] < weight@[d2] || (weight@[best as int] == weight@[d2] && best
                        <= d2) by {
                        assert(prim_tree_has(g, r@, k, start as int, g.edge_pairs()[d2].0)
                            == c_in0[g.edge_pairs()[d2].0]);
                        assert(prim_tree_has(g, r@, k, start as int, g.edge_pairs()[d2].1)
                            == c_in0[g.edge_pairs()[d2].1]);
                    }
                }
            }
        }
        added = added + 1;
    }
    proof {
        assert(unmarked_count(in_tree@) == 0);
        assert forall|v: int| 0 <= v < n implies #[trigger] in_tree@[v] by {
            if !in_tree@[v] {
                lemma_unmarked_at(in_tree@, v);
            }
        }
        assert forall|v: int|
            0 <= v < n && connected_pair(g, start as int, v) && v != start implies exists|k: int|
            0 <= k < r@.len() && (#[trigger] pairs_of(g, r@)[k]).1 == v by {
            assert(in_tree@[v]);
        }
    }
    r
}

} // verus!
