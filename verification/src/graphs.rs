//! The graph capability surface: what a representation must offer so that
//! the generic algorithms can run over it.  Vertices are integers below the
//! vertex count; edges are an opaque per-representation type with a source,
//! a target, an identity shared with their reverse, and a dense index.

use vstd::prelude::*;

verus! {

/// Incidence capability: vertex count, per-vertex out-edge access by
/// position, endpoint lookup, and edge identity.  Everything a traversal
/// needs, and nothing it does not.
pub trait Incidence: Sized {
    /// The representation's edge handle.
    type Edge: Copy;

    /// The representation's internal invariant.
    spec fn wf(&self) -> bool;

    /// The number of vertices.
    spec fn spec_n(&self) -> int;

    /// Whether every edge is undirected: an edge and its reverse are then
    /// one edge of the graph, seen from its two endpoints.
    spec fn undirected() -> bool;

    /// `e` is an edge of this graph.
    spec fn edge_wf(&self, e: Self::Edge) -> bool;

    /// The vertex `e` leaves.
    spec fn edge_source(&self, e: Self::Edge) -> int;

    /// The vertex `e` enters.
    spec fn edge_target(&self, e: Self::Edge) -> int;

    /// The identity of `e`: shared by `e` and its reverse exactly when the
    /// graph is undirected.  Doubles as the edge's property-map index.
    spec fn edge_id(&self, e: Self::Edge) -> int;

    /// How many edges leave `v`.
    spec fn spec_out_degree(&self, v: int) -> int;

    /// The `i`-th edge leaving `v`.
    spec fn spec_out_edge(&self, v: int, i: int) -> Self::Edge;

    /// Both endpoints of an edge are vertices.
    proof fn lemma_edge_bounds(&self, e: Self::Edge)
        requires
            self.wf(),
            self.edge_wf(e),
        ensures
            0 <= self.edge_source(e) < self.spec_n(),
            0 <= self.edge_target(e) < self.spec_n(),
    ;

    /// Every out-edge of `v` is an edge of the graph and leaves `v`.
    proof fn lemma_out_edge_wf(&self, v: int, i: int)
        requires
            self.wf(),
            0 <= v < self.spec_n(),
            0 <= i < self.spec_out_degree(v),
        ensures
            self.edge_wf(self.spec_out_edge(v, i)),
            self.edge_source(self.spec_out_edge(v, i)) == v,
            self.spec_out_degree(v) >= 0,
    ;

    /// Two edges with one identity join the same two endpoints, one way or
    /// the other.
    proof fn lemma_same_id_ends(&self, a: Self::Edge, b: Self::Edge)
        requires
            self.wf(),
            self.edge_wf(a),
            self.edge_wf(b),
            self.edge_id(a) == self.edge_id(b),
        ensures
            (self.edge_source(a) == self.edge_source(b) && self.edge_target(a)
                == self.edge_target(b)) || (self.edge_source(a) == self.edge_target(b)
                && self.edge_target(a) == self.edge_source(b)),
    ;

    /// In an undirected graph adjacency is symmetric: an edge seen from one
    /// endpoint is seen from the other.
    proof fn lemma_adjacent_sym(&self, u: int, w: int)
        requires
            self.wf(),
            Self::undirected(),
            0 <= u < self.spec_n(),
            exists|i: int|
                0 <= i < self.spec_out_degree(u) && self.edge_target(
                    #[trigger] self.spec_out_edge(u, i),
                ) == w,
        ensures
            exists|i: int|
                0 <= i < self.spec_out_degree(w) && self.edge_target(
                    #[trigger] self.spec_out_edge(w, i),
                ) == u,
    ;

    /// The number of vertices.
    fn num_vertices(&self) -> (r: usize)
        requires
            self.wf(),
        ensures
            r == self.spec_n(),
    ;

    /// How many edges leave `v`.
    fn out_degree(&self, v: usize) -> (r: usize)
        requires
            self.wf(),
            v < self.spec_n(),
        ensures
            r == self.spec_out_degree(v as int),
    ;

    /// The `i`-th edge leaving `v`.
    fn out_edge_at(&self, v: usize, i: usize) -> (e: Self::Edge)
        requires
            self.wf(),
            v < self.spec_n(),
            i < self.spec_out_degree(v as int),
        ensures
            e == self.spec_out_edge(v as int, i as int),
    ;

    /// The vertex `e` leaves.
    fn source(&self, e: Self::Edge) -> (r: usize)
        requires
            self.wf(),
            self.edge_wf(e),
        ensures
            r == self.edge_source(e),
            r < self.spec_n(),
    ;

    /// The vertex `e` enters.
    fn target(&self, e: Self::Edge) -> (r: usize)
        requires
            self.wf(),
            self.edge_wf(e),
        ensures
            r == self.edge_target(e),
            r < self.spec_n(),
    ;

    /// Whether `e` is an undirected edge.
    fn is_undirected_edge(&self, e: Self::Edge) -> (r: bool)
        requires
            self.wf(),
            self.edge_wf(e),
        ensures
            r == Self::undirected(),
    ;

    /// Whether two edge handles stand for the same edge of the graph.
    fn same_edge(&self, a: Self::Edge, b: Self::Edge) -> (r: bool)
        requires
            self.wf(),
            self.edge_wf(a),
            self.edge_wf(b),
        ensures
            r == (self.edge_id(a) == self.edge_id(b)),
    ;
}

/// There is an edge from `u` to `w`.
pub open spec fn adjacent<G: Incidence>(g: &G, u: int, w: int) -> bool {
    exists|i: int|
        0 <= i < g.spec_out_degree(u) && g.edge_target(#[trigger] g.spec_out_edge(u, i)) == w
}

/// A walk from `u` to `w`: a sequence of vertices starting at `u`, ending at
/// `w`, each consecutive pair joined by an edge.
pub open spec fn is_walk<G: Incidence>(g: &G, p: Seq<int>, u: int, w: int) -> bool {
    &&& p.len() >= 1
    &&& p[0] == u
    &&& p[p.len() - 1] == w
    &&& forall|k: int| 0 <= k < p.len() ==> 0 <= #[trigger] p[k] < g.spec_n()
    &&& forall|k: int| 0 <= k < p.len() - 1 ==> adjacent(g, #[trigger] p[k], p[k + 1])
}

/// `u` and `w` are connected: some walk joins them.
pub open spec fn connected_pair<G: Incidence>(g: &G, u: int, w: int) -> bool {
    exists|p: Seq<int>| is_walk(g, p, u, w)
}

/// The whole graph is connected: every pair of vertices is joined by a walk.
/// The empty graph counts as connected.
pub open spec fn spec_connected<G: Incidence>(g: &G) -> bool {
    forall|u: int, w: int|
        0 <= u < g.spec_n() && 0 <= w < g.spec_n() ==> connected_pair(g, u, w)
}

/// There is a walk of exactly `steps` edges from `u` to `w`.
pub open spec fn has_walk_len<G: Incidence>(g: &G, u: int, w: int, steps: int) -> bool {
    exists|p: Seq<int>| is_walk(g, p, u, w) && p.len() == steps + 1
}

/// Every walk contains a duplicate-free walk between the same endpoints
/// that is no longer.
pub proof fn lemma_walk_simplify<G: Incidence>(g: &G, p: Seq<int>, u: int, w: int)
    requires
        is_walk(g, p, u, w),
    ensures
        exists|q: Seq<int>|
            is_walk(g, q, u, w) && q.len() <= p.len() && (#[trigger] q.no_duplicates()),
    decreases p.len(),
{
    if exists|k: int, l: int| 0 <= k < l < p.len() && #[trigger] p[k] == #[trigger] p[l] {
        let (k, l) = choose|k: int, l: int|
            0 <= k < l < p.len() && #[trigger] p[k] == #[trigger] p[l];
        let q0 = p.take(k) + p.skip(l);
        assert(q0.len() == p.len() - (l - k));
        assert(q0[0] == u) by {
            if k > 0 {
                assert(q0[0] == p[0]);
            } else {
                assert(q0[0] == p[l]);
                assert(p[l] == p[0]);
            }
        }
        assert(q0[q0.len() - 1] == p[p.len() - 1]);
        assert forall|j: int| 0 <= j < q0.len() - 1 implies adjacent(
            g,
            #[trigger] q0[j],
            q0[j + 1],
        ) by {
            if j < k - 1 {
                assert(q0[j] == p[j] && q0[j + 1] == p[j + 1]);
                assert(adjacent(g, p[j], p[j + 1]));
            } else if j == k - 1 {
                assert(q0[j] == p[j] && q0[j + 1] == p[l]);
                assert(p[l] == p[k]);
                assert(adjacent(g, p[j], p[j + 1]));
            } else {
                assert(q0[j] == p[j - k + l] && q0[j + 1] == p[j - k + l + 1]);
                assert(adjacent(g, p[j - k + l], p[j - k + l + 1]));
            }
        }
        assert forall|j: int| 0 <= j < q0.len() implies 0 <= #[trigger] q0[j] < g.spec_n() by {
            if j < k {
                assert(q0[j] == p[j]);
                assert(0 <= p[j] < g.spec_n());
            } else {
                assert(q0[j] == p[j - k + l]);
                assert(0 <= p[j - k + l] < g.spec_n());
            }
        }
        assert(is_walk(g, q0, u, w));
        lemma_walk_simplify(g, q0, u, w);
    } else {
        assert(p.no_duplicates()) by {
            assert forall|k: int, l: int|
                0 <= k < l < p.len() implies #[trigger] p[k] != #[trigger] p[l] by {
                if p[k] == p[l] {
                    assert(exists|k2: int, l2: int|
                        0 <= k2 < l2 < p.len() && #[trigger] p[k2] == #[trigger] p[l2]);
                    assert(false);
                }
            }
        }
        assert(is_walk(g, p, u, w) && p.len() <= p.len() && p.no_duplicates());
    }
}

/// A duplicate-free walk visits at most every vertex once, so it is no
/// longer than the vertex count.
pub proof fn lemma_distinct_walk_len<G: Incidence>(g: &G, q: Seq<int>, u: int, w: int)
    requires
        is_walk(g, q, u, w),
        q.no_duplicates(),
    ensures
        q.len() <= g.spec_n(),
{
    broadcast use vstd::set::group_set_axioms;

    q.unique_seq_to_set();
    let range = vstd::set_lib::set_int_range(0, g.spec_n());
    vstd::set_lib::lemma_int_range(0, g.spec_n());
    assert forall|x: int| q.to_set().contains(x) implies range.contains(x) by {
        let j = choose|j: int| 0 <= j < q.len() && q[j] == x;
        assert(0 <= q[j] < g.spec_n());
    }
    assert(q.to_set().subset_of(range));
    vstd::set_lib::lemma_len_subset(q.to_set(), range);
}

/// Whatever two vertices some walk joins, a walk of fewer than the vertex
/// count edges joins too.
pub proof fn lemma_connected_short_walk<G: Incidence>(g: &G, u: int, w: int)
    requires
        connected_pair(g, u, w),
        g.spec_n() >= 1,
    ensures
        exists|steps: int|
            0 <= steps < g.spec_n() && #[trigger] has_walk_len(g, u, w, steps),
{
    let p = choose|p: Seq<int>| is_walk(g, p, u, w);
    lemma_walk_simplify(g, p, u, w);
    let q = choose|q: Seq<int>|
        is_walk(g, q, u, w) && q.len() <= p.len() && (#[trigger] q.no_duplicates());
    lemma_distinct_walk_len(g, q, u, w);
    let steps = q.len() - 1;
    assert(has_walk_len(g, u, w, steps));
}

/// A walk of `steps` edges extends by one adjacent vertex into a walk of
/// `steps + 1` edges.
pub proof fn lemma_walk_extend<G: Incidence>(g: &G, u: int, w: int, x: int, steps: int)
    requires
        has_walk_len(g, u, w, steps),
        adjacent(g, w, x),
        0 <= x < g.spec_n(),
    ensures
        has_walk_len(g, u, x, steps + 1),
{
    let p = choose|p: Seq<int>| is_walk(g, p, u, w) && p.len() == steps + 1;
    let q = p.push(x);
    assert forall|k: int| 0 <= k < q.len() - 1 implies adjacent(g, #[trigger] q[k], q[k + 1]) by {
        if k < p.len() - 1 {
            assert(adjacent(g, p[k], p[k + 1]));
        }
    }
    assert(is_walk(g, q, u, x) && q.len() == steps + 2);
}

/// A walk of no edges joins every vertex to itself.
pub proof fn lemma_walk_refl<G: Incidence>(g: &G, u: int)
    requires
        0 <= u < g.spec_n(),
    ensures
        has_walk_len(g, u, u, 0),
{
    let p = seq![u];
    assert(is_walk(g, p, u, u) && p.len() == 1);
}

/// Connectivity of a pair is reflexive.
pub proof fn lemma_connected_refl<G: Incidence>(g: &G, u: int)
    requires
        0 <= u < g.spec_n(),
    ensures
        connected_pair(g, u, u),
{
    let p = seq![u];
    assert(is_walk(g, p, u, u));
}

/// A walk extends by one adjacent vertex.
pub proof fn lemma_connected_step<G: Incidence>(g: &G, u: int, w: int, x: int)
    requires
        connected_pair(g, u, w),
        adjacent(g, w, x),
        0 <= x < g.spec_n(),
    ensures
        connected_pair(g, u, x),
{
    let p = choose|p: Seq<int>| is_walk(g, p, u, w);
    let q = p.push(x);
    assert forall|k: int| 0 <= k < q.len() - 1 implies adjacent(
        g,
        #[trigger] q[k],
        q[k + 1],
    ) by {
        if k < p.len() - 1 {
            assert(adjacent(g, p[k], p[k + 1]));
        }
    }
    assert(is_walk(g, q, u, x));
}

/// Connectivity of pairs is transitive.
pub proof fn lemma_connected_trans<G: Incidence>(g: &G, u: int, w: int, x: int)
    requires
        connected_pair(g, u, w),
        connected_pair(g, w, x),
    ensures
        connected_pair(g, u, x),
{
    let p = choose|p: Seq<int>| is_walk(g, p, u, w);
    let q = choose|q: Seq<int>| is_walk(g, q, w, x);
    let r = p + q.skip(1);
    assert forall|k: int| 0 <= k < r.len() - 1 implies adjacent(
        g,
        #[trigger] r[k],
        r[k + 1],
    ) by {
        if k < p.len() - 1 {
            assert(adjacent(g, p[k], p[k + 1]));
        } else if k == p.len() - 1 {
            if q.len() >= 2 {
                assert(r[k] == w && r[k + 1] == q[1]);
                assert(adjacent(g, q[0], q[1]));
            }
        } else {
            let j = k - p.len() + 1;
            assert(adjacent(g, q[j], q[j + 1]));
        }
    }
    assert(r[r.len() - 1] == x);
    assert(is_walk(g, r, u, x));
}

/// In an undirected graph, connectivity of pairs is symmetric.
pub proof fn lemma_connected_sym<G: Incidence>(g: &G, u: int, w: int)
    requires
        g.wf(),
        G::undirected(),
        connected_pair(g, u, w),
    ensures
        connected_pair(g, w, u),
{
    let p = choose|p: Seq<int>| is_walk(g, p, u, w);
    let r = p.reverse();
    assert forall|k: int| 0 <= k < r.len() - 1 implies adjacent(
        g,
        #[trigger] r[k],
        r[k + 1],
    ) by {
        let j = p.len() - 1 - k;
        assert(r[k] == p[j] && r[k + 1] == p[j - 1]);
        assert(adjacent(g, p[j - 1], p[j]));
        g.lemma_adjacent_sym(p[j - 1], p[j]);
    }
    assert(r[0] == w && r[r.len() - 1] == u);
    assert(is_walk(g, r, w, u));
}

} // verus!
