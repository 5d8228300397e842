//! Structural queries derived from traversal: connectivity, acyclicity and
//! the tree test.  Each is a pure function of the graph, specified against
//! the walk-based connectivity of `graphs` and proved, so repeated calls
//! must agree.

use vstd::prelude::*;
use crate::graphs::Incidence;
use crate::graphs::adjacent;
use crate::graphs::connected_pair;
use crate::graphs::is_walk;
use crate::graphs::spec_connected;
use crate::graphs::lemma_connected_refl;
use crate::graphs::lemma_connected_step;
use crate::graphs::lemma_connected_trans;
use crate::graphs::lemma_connected_sym;
use crate::props::PropMap;
use crate::static_graph::StaticGraph;
use crate::static_graph::StaticGraphBuilder;
use crate::static_graph::mate;

verus! {

/// How many slots of `s` are unmarked: the measure a marking traversal
/// shrinks.
pub open spec fn unmarked_count(s: Seq<bool>) -> int
    decreases s.len(),
{
    if s.len() == 0 {
        0
    } else {
        unmarked_count(s.drop_last()) + if s.last() {
            0int
        } else {
            1int
        }
    }
}

/// The unmarked count stays between zero and the length.
pub proof fn lemma_unmarked_count_bounds(s: Seq<bool>)
    ensures
        0 <= unmarked_count(s) <= s.len(),
    decreases s.len(),
{
    if s.len() > 0 {
        lemma_unmarked_count_bounds(s.drop_last());
    }
}

/// Updating one slot changes the unmarked count by that slot's difference.
pub proof fn lemma_unmarked_count_update(s: Seq<bool>, i: int, c: bool)
    requires
        0 <= i < s.len(),
    ensures
        unmarked_count(s.update(i, c)) == unmarked_count(s) - (if s[i] {
            0int
        } else {
            1int
        }) + (if c {
            0int
        } else {
            1int
        }),
    decreases s.len(),
{
    let t = s.update(i, c);
    if i == s.len() - 1 {
        assert(t.drop_last() =~= s.drop_last());
    } else {
        assert(t.drop_last() =~= s.drop_last().update(i, c));
        lemma_unmarked_count_update(s.drop_last(), i, c);
    }
}

/// `v` appears in the worklist.
pub open spec fn in_list(wl: Seq<usize>, v: int) -> bool {
    exists|k: int| 0 <= k < wl.len() && (#[trigger] wl[k]) as int == v
}

/// The target of the `j`-th out-edge of `v` is in range and marked.
pub open spec fn nbr_marked<G: Incidence>(g: &G, m: Seq<bool>, v: int, j: int) -> bool {
    let t = g.edge_target(g.spec_out_edge(v, j));
    0 <= t < m.len() && m[t]
}

/// A marking is closed: no marked vertex has an unmarked neighbor.
pub open spec fn marking_closed<G: Incidence>(g: &G, m: Seq<bool>) -> bool {
    forall|v: int, j: int|
        0 <= v < g.spec_n() && m[v] && 0 <= j < g.spec_out_degree(v) ==> #[trigger] nbr_marked(
            g,
            m,
            v,
            j,
        )
}

/// Everything a closed marking containing `u` contains: the whole of what
/// any walk from `u` can reach.
pub proof fn lemma_closed_covers_walks<G: Incidence>(g: &G, m: Seq<bool>, p: Seq<int>, u: int, w: int)
    requires
        g.wf(),
        m.len() == g.spec_n(),
        marking_closed(g, m),
        is_walk(g, p, u, w),
        m[u],
    ensures
        m[w],
    decreases p.len(),
{
    if p.len() == 1 {
    } else {
        let x = p[1];
        assert(adjacent(g, u, x));
        let i = choose|i: int|
            0 <= i < g.spec_out_degree(u) && g.edge_target(#[trigger] g.spec_out_edge(u, i)) == x;
        assert(nbr_marked(g, m, u, i));
        assert(m[x]);
        let q = p.skip(1);
        assert(q[0] == x);
        assert(q[q.len() - 1] == w);
        assert forall|k: int| 0 <= k < q.len() - 1 implies adjacent(
            g,
            #[trigger] q[k],
            q[k + 1],
        ) by {
            assert(adjacent(g, p[k + 1], p[k + 2]));
        }
        assert(is_walk(g, q, x, w));
        lemma_closed_covers_walks(g, m, q, x, w);
    }
}

/// Extend a closed marking by everything connected to `root`: afterwards a
/// vertex is marked exactly when it was already marked or some walk from
/// `root` reaches it, and the marking is closed again.
pub fn flood<G: Incidence>(g: &G, root: usize, visited: &mut PropMap<bool>)
    requires
        g.wf(),
        root < g.spec_n(),
        old(visited)@.len() == g.spec_n(),
        marking_closed(g, old(visited)@),
        !old(visited)@[root as int],
    ensures
        final(visited)@.len() == g.spec_n(),
        marking_closed(g, final(visited)@),
        forall|v: int|
            0 <= v < g.spec_n() ==> (final(visited)@[v] <==> old(visited)@[v] || connected_pair(
                g,
                root as int,
                v,
            )),
{
    let mut wl: Vec<usize> = Vec::new();
    visited.set(root, true);
    wl.push(root);
    proof {
        lemma_unmarked_count_bounds(visited@);
        lemma_connected_refl(g, root as int);
        assert((wl@[0]) as int == root as int);
        assert(in_list(wl@, root as int));
        assert forall|v: int, j: int|
            0 <= v < g.spec_n() && visited@[v] && !in_list(wl@, v) && 0 <= j < g.spec_out_degree(
                v,
            ) implies #[trigger] nbr_marked(g, visited@, v, j) by {
            assert(old(visited)@[v]);
            assert(nbr_marked(g, old(visited)@, v, j));
        }
    }
    while wl.len() > 0
        invariant
            g.wf(),
            root < g.spec_n(),
            visited@.len() == g.spec_n(),
            visited@[root as int],
            forall|v: int| 0 <= v < g.spec_n() && old(visited)@[v] ==> #[trigger] visited@[v],
            forall|k: int| 0 <= k < wl@.len() ==> (#[trigger] wl@[k]) < g.spec_n(),
            forall|k: int| 0 <= k < wl@.len() ==> connected_pair(g, root as int, (#[trigger] wl@[k]) as int),
            forall|v: int|
                0 <= v < g.spec_n() && #[trigger] visited@[v] ==> old(visited)@[v]
                    || connected_pair(g, root as int, v),
            forall|v: int, j: int|
                0 <= v < g.spec_n() && visited@[v] && !in_list(wl@, v) && 0 <= j
                    < g.spec_out_degree(v) ==> #[trigger] nbr_marked(g, visited@, v, j),
            forall|k: int| 0 <= k < wl@.len() ==> visited@[(#[trigger] wl@[k]) as int],
        decreases unmarked_count(visited@) + wl@.len(),
    {
        let ghost m0 = unmarked_count(visited@) + wl@.len();
        let ghost wl0 = wl@;
        let u = wl.pop().unwrap();
        proof {
            assert(wl0 =~= wl@.push(u));
            assert(connected_pair(g, root as int, u as int)) by {
                assert((wl0[wl0.len() - 1]) as int == u as int);
            }
            assert forall|v: int| in_list(wl0, v) implies in_list(wl@, v) || v == u as int by {
                let k = choose|k: int| 0 <= k < wl0.len() && (#[trigger] wl0[k]) as int == v;
                if k < wl@.len() {
                    assert((wl@[k]) as int == v);
                }
            }
            assert forall|v: int| in_list(wl@, v) implies in_list(wl0, v) by {
                let k = choose|k: int| 0 <= k < wl@.len() && (#[trigger] wl@[k]) as int == v;
                assert((wl0[k]) as int == v);
            }
        }
        let deg = g.out_degree(u);
        let mut i: usize = 0;
        while i < deg
            invariant
                g.wf(),
                root < g.spec_n(),
                u < g.spec_n(),
                i <= deg,
                deg == g.spec_out_degree(u as int),
                visited@.len() == g.spec_n(),
                visited@[root as int],
                visited@[u as int],
                connected_pair(g, root as int, u as int),
                forall|v: int| 0 <= v < g.spec_n() && old(visited)@[v] ==> #[trigger] visited@[v],
                forall|k: int| 0 <= k < wl@.len() ==> (#[trigger] wl@[k]) < g.spec_n(),
                forall|k: int|
                    0 <= k < wl@.len() ==> connected_pair(
                        g,
                        root as int,
                        (#[trigger] wl@[k]) as int,
                    ),
                forall|v: int|
                    0 <= v < g.spec_n() && #[trigger] visited@[v] ==> old(visited)@[v]
                        || connected_pair(g, root as int, v),
                forall|v: int, j: int|
                    0 <= v < g.spec_n() && visited@[v] && v != u as int && !in_list(wl@, v) && 0
                        <= j < g.spec_out_degree(v) ==> #[trigger] nbr_marked(g, visited@, v, j),
                forall|j: int| 0 <= j < i ==> #[trigger] nbr_marked(g, visited@, u as int, j),
                forall|k: int| 0 <= k < wl@.len() ==> visited@[(#[trigger] wl@[k]) as int],
                unmarked_count(visited@) + wl@.len() <= m0 - 1,
            decreases deg - i,
        {
            let e = g.out_edge_at(u, i);
            proof {
                g.lemma_out_edge_wf(u as int, i as int);
            }
            let w = g.target(e);
            if !visited.get(w) {
                proof {
                    lemma_unmarked_count_update(visited@, w as int, true);
                    lemma_connected_step(g, root as int, u as int, w as int);
                }
                let ghost mold = visited@;
                let ghost wl1 = wl@;
                visited.set(w, true);
                wl.push(w);
                proof {
                    assert forall|v: int| in_list(wl1, v) implies in_list(wl@, v) by {
                        let k = choose|k: int|
                            0 <= k < wl1.len() && (#[trigger] wl1[k]) as int == v;
                        assert((wl@[k]) as int == v);
                    }
                    assert((wl@[wl@.len() - 1]) as int == w as int);
                    assert(in_list(wl@, w as int));
                    assert forall|v: int, j: int|
                        0 <= v < g.spec_n() && visited@[v] && v != u as int && !in_list(wl@, v)
                            && 0 <= j < g.spec_out_degree(v) implies #[trigger] nbr_marked(
                        g,
                        visited@,
                        v,
                        j,
                    ) by {
                        assert(v != w as int);
                        assert(mold[v]);
                        assert(!in_list(wl1, v));
                        assert(nbr_marked(g, mold, v, j));
                    }
                    assert forall|j: int| 0 <= j <= i implies #[trigger] nbr_marked(
                        g,
                        visited@,
                        u as int,
                        j,
                    ) by {
                        if j < i {
                            assert(nbr_marked(g, mold, u as int, j));
                        }
                    }
                }
            } else {
                proof {
                    assert(nbr_marked(g, visited@, u as int, i as int));
                }
            }
            i = i + 1;
        }
        proof {
            lemma_unmarked_count_bounds(visited@);
            assert forall|v: int, j: int|
                0 <= v < g.spec_n() && visited@[v] && !in_list(wl@, v) && 0 <= j
                    < g.spec_out_degree(v) implies #[trigger] nbr_marked(g, visited@, v, j) by {
                if v == u as int {
                    assert(nbr_marked(g, visited@, u as int, j));
                }
            }
        }
    }
    proof {
        assert forall|v: int|
            0 <= v < g.spec_n() && connected_pair(g, root as int, v) implies visited@[v] by {
            let p = choose|p: Seq<int>| is_walk(g, p, root as int, v);
            assert(marking_closed(g, visited@));
            lemma_closed_covers_walks(g, visited@, p, root as int, v);
        }
    }
}

/// Mark every vertex connected to `root`.  Starting from an all-unmarked
/// map, the marks afterwards are exactly the vertices some walk from `root`
/// reaches.
pub fn mark_component<G: Incidence>(g: &G, root: usize, visited: &mut PropMap<bool>)
    requires
        g.wf(),
        root < g.spec_n(),
        old(visited)@.len() == g.spec_n(),
        forall|v: int| 0 <= v < g.spec_n() ==> !old(visited)@[v],
    ensures
        final(visited)@.len() == g.spec_n(),
        forall|v: int|
            0 <= v < g.spec_n() ==> (final(visited)@[v] <==> connected_pair(g, root as int, v)),
{
    flood(g, root, visited);
}

/// Whether the whole graph is one component: every pair of vertices joined
/// by a walk.  The empty graph is connected.
pub fn is_connected<G: Incidence>(g: &G) -> (r: bool)
    requires
        g.wf(),
        G::undirected(),
    ensures
        r == spec_connected(g),
{
    let n = g.num_vertices();
    if n == 0 {
        return true;
    }
    let mut visited = PropMap::with_default(n, false);
    mark_component(g, 0, &mut visited);
    proof {
        lemma_connected_refl(g, 0);
    }
    let mut v: usize = 1;
    while v < n
        invariant
            g.wf(),
            G::undirected(),
            n == g.spec_n(),
            1 <= v <= n,
            visited@.len() == n,
            forall|w: int| 0 <= w < n ==> (visited@[w] <==> connected_pair(g, 0, w)),
            forall|w: int| 0 <= w < v ==> connected_pair(g, 0, w),
        decreases n - v,
    {
        if !visited.get(v) {
            proof {
                assert(!connected_pair(g, 0, v as int));
            }
            return false;
        }
        v = v + 1;
    }
    proof {
        assert forall|u: int, w: int|
            0 <= u < g.spec_n() && 0 <= w < g.spec_n() implies connected_pair(g, u, w) by {
            lemma_connected_sym(g, 0, u);
            lemma_connected_trans(g, u, 0, w);
        }
    }
    true
}

// Acyclicity over the edge list.

/// Some listed pair joins `u` and `w`, in either order.
pub open spec fn pair_adj(ps: Seq<(int, int)>, u: int, w: int) -> bool {
    exists|j: int|
        0 <= j < ps.len() && ((#[trigger] ps[j]) == (u, w) || ps[j] == (w, u))
}

/// A walk over the listed pairs from `u` to `w`.
pub open spec fn pair_walk(ps: Seq<(int, int)>, p: Seq<int>, u: int, w: int) -> bool {
    &&& p.len() >= 1
    &&& p[0] == u
    &&& p[p.len() - 1] == w
    &&& forall|k: int| 0 <= k < p.len() - 1 ==> pair_adj(ps, #[trigger] p[k], p[k + 1])
}

/// The listed pairs connect `u` and `w`.
pub open spec fn pair_conn(ps: Seq<(int, int)>, u: int, w: int) -> bool {
    exists|p: Seq<int>| pair_walk(ps, p, u, w)
}

/// The edge list closes no cycle: every cycle of a graph has a last edge,
/// so a graph is acyclic exactly when no edge joins two vertices that the
/// edges before it already connect.  A self-loop joins a vertex to itself,
/// which the empty list already does, so it always closes a cycle.
pub open spec fn spec_acyclic(g: &StaticGraph) -> bool {
    forall|j: int|
        0 <= j < g.edge_pairs().len() ==> !pair_conn(
            g.edge_pairs().take(j),
            (#[trigger] g.edge_pairs()[j]).0,
            g.edge_pairs()[j].1,
        )
}

/// A tree: connected, acyclic, and one edge short of the vertex count.
/// The empty graph is a tree.
pub open spec fn spec_tree(g: &StaticGraph) -> bool {
    if g.spec_n() == 0 {
        true
    } else {
        spec_connected(g) && spec_acyclic(g) && g.spec_num_edges() == g.spec_n() - 1
    }
}

/// Incidence adjacency of a static graph is exactly adjacency over its edge
/// list.
pub proof fn lemma_adj_bridge(h: &StaticGraph, u: int, w: int)
    requires
        h.inv(),
        0 <= u < h.spec_n(),
    ensures
        adjacent(h, u, w) <==> pair_adj(h.edge_pairs(), u, w),
        pair_adj(h.edge_pairs(), u, w) ==> 0 <= w < h.spec_n(),
{
    let ps = h.edge_pairs();
    if adjacent(h, u, w) {
        let i = choose|i: int|
            0 <= i < h.spec_out_degree(u) && h.edge_target(#[trigger] h.spec_out_edge(u, i)) == w;
        let d = h.inc@[u]@[i].0 as int;
        let j = d / 2;
        assert(h.ends@[mate(d)] == u);
        assert(h.ends@[d] == w);
        if d % 2 == 0 {
            assert(d == 2 * j && mate(d) == 2 * j + 1);
            assert(ps[j] == (w, u));
        } else {
            assert(d == 2 * j + 1 && mate(d) == 2 * j);
            assert(ps[j] == (u, w));
        }
        assert(pair_adj(ps, u, w));
    }
    if pair_adj(ps, u, w) {
        let j = choose|j: int|
            0 <= j < ps.len() && ((#[trigger] ps[j]) == (u, w) || ps[j] == (w, u));
        assert(0 <= h.ends@[2 * j] < h.spec_n());
        assert(0 <= h.ends@[2 * j + 1] < h.spec_n());
        let d = if ps[j] == (u, w) {
            2 * j + 1
        } else {
            2 * j
        };
        assert(mate(d) == if ps[j] == (u, w) { 2 * j } else { 2 * j + 1 });
        assert(h.ends@[mate(d)] == u);
        assert(h.ends@[d] == w);
        assert(h.inc_has(u, d));
        let k = choose|k: int| 0 <= k < h.inc@[u]@.len() && (#[trigger] h.inc@[u]@[k]).0 == d;
        assert(h.edge_target(h.spec_out_edge(u, k)) == w);
        assert(adjacent(h, u, w));
    }
}

/// Incidence connectivity of a static graph is exactly connectivity over
/// its edge list.
pub proof fn lemma_conn_bridge(h: &StaticGraph, u: int, w: int)
    requires
        h.inv(),
        0 <= u < h.spec_n(),
    ensures
        connected_pair(h, u, w) <==> pair_conn(h.edge_pairs(), u, w),
{
    let ps = h.edge_pairs();
    if connected_pair(h, u, w) {
        let p = choose|p: Seq<int>| is_walk(h, p, u, w);
        assert forall|k: int| 0 <= k < p.len() - 1 implies pair_adj(
            ps,
            #[trigger] p[k],
            p[k + 1],
        ) by {
            assert(adjacent(h, p[k], p[k + 1]));
            lemma_adj_bridge(h, p[k], p[k + 1]);
        }
        assert(pair_walk(ps, p, u, w));
        assert(pair_conn(ps, u, w));
    }
    if pair_conn(ps, u, w) {
        let p = choose|p: Seq<int>| pair_walk(ps, p, u, w);
        assert forall|k: int| 0 <= k < p.len() implies 0 <= #[trigger] p[k] < h.spec_n() by {
            if k == 0 {
            } else {
                assert(pair_adj(ps, p[k - 1], p[k]));
                let j = choose|j: int|
                    0 <= j < ps.len() && ((#[trigger] ps[j]) == (p[k - 1], p[k]) || ps[j] == (
                        p[k],
                        p[k - 1],
                    ));
                assert(0 <= h.ends@[2 * j] < h.spec_n());
                assert(0 <= h.ends@[2 * j + 1] < h.spec_n());
            }
        }
        assert forall|k: int| 0 <= k < p.len() - 1 implies adjacent(
            h,
            #[trigger] p[k],
            p[k + 1],
        ) by {
            lemma_adj_bridge(h, p[k], p[k + 1]);
        }
        assert(is_walk(h, p, u, w));
        assert(connected_pair(h, u, w));
    }
}

impl StaticGraph {
    /// Whether the graph is one component.  The empty graph is connected.
    pub fn is_connected(&self) -> (r: bool)
        requires
            self.inv(),
        ensures
            r == spec_connected(self),
    {
        is_connected(self)
    }

    /// Whether the graph has no cycle: no edge joins two vertices that the
    /// edges added before it already connect.
    pub fn is_acyclic(&self) -> (r: bool)
        requires
            self.inv(),
        ensures
            r == spec_acyclic(self),
    {
        let n = self.num_vertices();
        let m = self.num_edges();
        let mut b = StaticGraphBuilder::new(n, m);
        let mut j: usize = 0;
        while j < m
            invariant
                self.inv(),
                b.g.inv(),
                b.spec_n() == self.spec_n(),
                n == self.spec_n(),
                j <= m,
                m == self.spec_num_edges(),
                self.ends@.len() <= usize::MAX - 1,
                b.g.ends@.len() == 2 * j,
                b.edge_pairs() =~= self.edge_pairs().take(j as int),
                forall|k: int|
                    0 <= k < j ==> !pair_conn(
                        self.edge_pairs().take(k),
                        (#[trigger] self.edge_pairs()[k]).0,
                        self.edge_pairs()[k].1,
                    ),
            decreases m - j,
        {
            let (u, v) = self.pair_at(j);
            let mut vis = PropMap::with_default(n, false);
            mark_component(&b.g, u, &mut vis);
            proof {
                lemma_conn_bridge(&b.g, u as int, v as int);
            }
            if vis.get(v) {
                return false;
            }
            b.add_edge(u, v);
            j = j + 1;
        }
        true
    }

    /// Whether the graph is a tree: connected, acyclic, one edge short of
    /// the vertex count.  The empty graph is a tree.
    pub fn is_tree(&self) -> (r: bool)
        requires
            self.inv(),
        ensures
            r == spec_tree(self),
    {
        let n = self.num_vertices();
        if n == 0 {
            return true;
        }
        self.is_connected() && self.is_acyclic() && self.num_edges() == n - 1
    }
}

/// Repeated calls of the three predicates must agree: each result equals a
/// pure function of the graph, so any two results are equal.
pub proof fn lemma_predicates_deterministic(
    g: &StaticGraph,
    c1: bool,
    c2: bool,
    a1: bool,
    a2: bool,
    t1: bool,
    t2: bool,
)
    requires
        c1 == spec_connected(g),
        c2 == spec_connected(g),
        a1 == spec_acyclic(g),
        a2 == spec_acyclic(g),
        t1 == spec_tree(g),
        t2 == spec_tree(g),
    ensures
        c1 == c2,
        a1 == a2,
        t1 == t2,
{
}

/// The empty graph is connected, acyclic and a tree.
pub proof fn lemma_empty_graph_predicates(g: &StaticGraph)
    requires
        g.inv(),
        g.spec_n() == 0,
    ensures
        spec_connected(g),
        spec_acyclic(g),
        spec_tree(g),
{
    assert(g.edge_pairs().len() == 0) by {
        if g.ends@.len() > 0 {
            assert(g.ends@[0] < g.n);
            assert(false);
        }
    }
}

} // verus!
