//! The sparse, immutable graph representation: endpoints in one flat table,
//! one incidence list per vertex.  Built once through a builder, then frozen.
//! Each edge stores two directed views that share one identity; reversal
//! flips the lowest bit of the view number.

use vstd::prelude::*;
use crate::graphs::Incidence;

verus! {

/// A directed view of an edge of a static graph.  View number `2*e + 1` is
/// the forward view of edge `e`, `2*e` the reverse view; the two views share
/// the identity `e`.  No `Hash`: equality ignores the direction bit, so a
/// derived hash would disagree with it; hash the identity from `to_index`
/// instead.
#[derive(Clone, Copy, Eq, Debug)]
pub struct StaticEdge(pub usize);

impl PartialEq for StaticEdge {
    /// Two views are equal when they belong to the same edge, whatever their
    /// direction.
    fn eq(&self, other: &StaticEdge) -> (r: bool) {
        self.0 / 2 == other.0 / 2
    }
}

impl vstd::std_specs::cmp::PartialEqSpecImpl for StaticEdge {
    open spec fn obeys_eq_spec() -> bool {
        true
    }

    open spec fn eq_spec(&self, other: &StaticEdge) -> bool {
        self.0 / 2 == other.0 / 2
    }
}

/// The other view of the same edge.
pub open spec fn mate(d: int) -> int {
    if d % 2 == 0 {
        d + 1
    } else {
        d - 1
    }
}

impl StaticEdge {
    /// The forward view of edge `e`.
    pub fn new(e: usize) -> (r: Self)
        requires
            2 * e + 1 <= usize::MAX,
        ensures
            r.0 == 2 * e + 1,
    {
        StaticEdge(2 * e + 1)
    }

    /// The reverse view of edge `e`.
    pub fn new_reverse(e: usize) -> (r: Self)
        requires
            2 * e <= usize::MAX,
        ensures
            r.0 == 2 * e,
    {
        StaticEdge(2 * e)
    }

    /// The other view of the same edge.
    pub fn reverse(self) -> (r: Self)
        ensures
            r.0 == mate(self.0 as int),
    {
        if self.0 % 2 == 0 {
            StaticEdge(self.0 + 1)
        } else {
            StaticEdge(self.0 - 1)
        }
    }

    /// The edge identity shared by both views: the property-map index.
    pub fn to_index(self) -> (r: usize)
        ensures
            r == self.0 as int / 2,
    {
        self.0 / 2
    }
}

/// An immutable sparse graph: a vertex count, a flat endpoint table (two
/// entries per edge) and one incidence list per vertex holding edge views
/// whose source is that vertex.
pub struct StaticGraph {
    /// The number of vertices.
    pub n: usize,
    /// Endpoint table: view `d` enters `ends[d]` and leaves `ends[mate(d)]`.
    pub ends: Vec<u32>,
    /// Incidence lists: `inc[v]` holds every view leaving `v`.
    pub inc: Vec<Vec<StaticEdge>>,
}

impl StaticGraph {
    /// The edge list the graph was built from: the `j`-th added edge as the
    /// pair of its endpoints, in the order the builder received them.
    pub open spec fn edge_pairs(&self) -> Seq<(int, int)> {
        Seq::new(
            (self.ends@.len() / 2) as nat,
            |j: int| (self.ends@[2 * j] as int, self.ends@[2 * j + 1] as int),
        )
    }

    /// How many edges the graph has.
    pub open spec fn spec_num_edges(&self) -> int {
        self.ends@.len() as int / 2
    }

    /// A view number of this graph.
    pub open spec fn view_wf(&self, d: int) -> bool {
        0 <= d < self.ends@.len()
    }

    /// `v` has the view `d` in its incidence list.
    pub open spec fn inc_has(&self, v: int, d: int) -> bool {
        exists|j: int| 0 <= j < self.inc@[v]@.len() && (#[trigger] self.inc@[v]@[j]).0 == d
    }

    /// The representation invariant: the endpoint table is even and in
    /// range, every incidence entry is a view leaving its list's vertex, and
    /// every view sits in the list of the vertex it leaves.
    pub open spec fn inv(&self) -> bool {
        &&& self.n <= u32::MAX
        &&& self.ends@.len() % 2 == 0
        &&& self.ends@.len() <= usize::MAX - 1
        &&& self.inc@.len() == self.n
        &&& forall|d: int| 0 <= d < self.ends@.len() ==> 0 <= #[trigger] self.ends@[d] < self.n
        &&& forall|v: int, j: int|
            0 <= v < self.n && 0 <= j < self.inc@[v]@.len() ==> {
                let d = (#[trigger] self.inc@[v]@[j]).0 as int;
                0 <= d < self.ends@.len() && self.ends@[mate(d)] == v
            }
        &&& forall|d: int| 0 <= d < self.ends@.len() ==> self.inc_has(self.ends@[mate(d)] as int, d)
        &&& forall|v: int|
            0 <= v < self.n ==> (#[trigger] self.inc@[v])@.len() <= self.ends@.len()
    }
}

impl Incidence for StaticGraph {
    type Edge = StaticEdge;

    open spec fn wf(&self) -> bool {
        self.inv()
    }

    open spec fn spec_n(&self) -> int {
        self.n as int
    }

    open spec fn undirected() -> bool {
        true
    }

    open spec fn edge_wf(&self, e: StaticEdge) -> bool {
        self.view_wf(e.0 as int)
    }

    open spec fn edge_source(&self, e: StaticEdge) -> int {
        self.ends@[mate(e.0 as int)] as int
    }

    open spec fn edge_target(&self, e: StaticEdge) -> int {
        self.ends@[e.0 as int] as int
    }

    open spec fn edge_id(&self, e: StaticEdge) -> int {
        e.0 as int / 2
    }

    open spec fn spec_out_degree(&self, v: int) -> int {
        self.inc@[v]@.len() as int
    }

    open spec fn spec_out_edge(&self, v: int, i: int) -> StaticEdge {
        self.inc@[v]@[i]
    }

    proof fn lemma_edge_bounds(&self, e: StaticEdge) {
    }

    proof fn lemma_same_id_ends(&self, a: StaticEdge, b: StaticEdge) {
        let da = a.0 as int;
        let db = b.0 as int;
        assert(db == da || db == mate(da));
    }

    proof fn lemma_out_edge_wf(&self, v: int, i: int) {
    }

    proof fn lemma_adjacent_sym(&self, u: int, w: int) {
        let i = choose|i: int|
            0 <= i < self.spec_out_degree(u) && self.edge_target(
                #[trigger] self.spec_out_edge(u, i),
            ) == w;
        let d = self.inc@[u]@[i].0 as int;
        let d2 = mate(d);
        assert(mate(d2) == d);
        assert(self.ends@[d] == w);
        assert(self.inc_has(self.ends@[mate(d2)] as int, d2));
        let j = choose|j: int|
            0 <= j < self.inc@[w]@.len() && (#[trigger] self.inc@[w]@[j]).0 == d2;
        assert(self.edge_target(self.spec_out_edge(w, j)) == self.ends@[d2]);
        assert(self.ends@[d2] == self.ends@[mate(d)]);
        assert(self.ends@[mate(d)] == u);
    }

    fn num_vertices(&self) -> (r: usize) {
        self.n
    }

    fn out_degree(&self, v: usize) -> (r: usize) {
        self.inc[v].len()
    }

    fn out_edge_at(&self, v: usize, i: usize) -> (e: StaticEdge) {
        self.inc[v][i]
    }

    fn source(&self, e: StaticEdge) -> (r: usize) {
        let d = if e.0 % 2 == 0 {
            e.0 + 1
        } else {
            e.0 - 1
        };
        self.ends[d] as usize
    }

    fn target(&self, e: StaticEdge) -> (r: usize) {
        self.ends[e.0] as usize
    }

    fn is_undirected_edge(&self, e: StaticEdge) -> (r: bool) {
        true
    }

    fn same_edge(&self, a: StaticEdge, b: StaticEdge) -> (r: bool) {
        a.0 / 2 == b.0 / 2
    }
}

impl StaticGraph {
    /// How many edges the graph has.
    pub fn num_edges(&self) -> (r: usize)
        requires
            self.inv(),
        ensures
            r == self.spec_num_edges(),
    {
        self.ends.len() / 2
    }

    /// The forward view of every edge, in insertion order.
    pub fn edges(&self) -> (r: Vec<StaticEdge>)
        requires
            self.inv(),
        ensures
            r@.len() == self.spec_num_edges(),
            forall|j: int| 0 <= j < r@.len() ==> (#[trigger] r@[j]).0 == 2 * j + 1,
    {
        let m = self.ends.len() / 2;
        let mut r: Vec<StaticEdge> = Vec::new();
        let mut j: usize = 0;
        while j < m
            invariant
                j <= m,
                2 * m <= usize::MAX,
                r@.len() == j,
                forall|k: int| 0 <= k < j ==> (#[trigger] r@[k]).0 == 2 * k + 1,
            decreases m - j,
        {
            r.push(StaticEdge(2 * j + 1));
            j = j + 1;
        }
        r
    }

    /// The degree of `v`: how many edge views leave it.
    pub fn degree(&self, v: usize) -> (r: usize)
        requires
            self.inv(),
            v < self.n,
        ensures
            r == self.spec_out_degree(v as int),
    {
        self.inc[v].len()
    }

    /// The incidence list of `v`.
    pub fn inc_edges(&self, v: usize) -> (r: &Vec<StaticEdge>)
        requires
            self.inv(),
            v < self.n,
        ensures
            r@ == self.inc@[v as int]@,
    {
        &self.inc[v]
    }

    /// All vertices, in increasing order.
    pub fn vertices(&self) -> (r: Vec<usize>)
        ensures
            r@.len() == self.n,
            forall|i: int| 0 <= i < r@.len() ==> r@[i] == i,
    {
        let mut r: Vec<usize> = Vec::new();
        let mut v: usize = 0;
        while v < self.n
            invariant
                v <= self.n,
                r@.len() == v,
                forall|i: int| 0 <= i < r@.len() ==> r@[i] == i,
            decreases self.n - v,
        {
            r.push(v);
            v = v + 1;
        }
        r
    }

    /// The endpoints of the `j`-th edge, in the order they were added.
    pub fn pair_at(&self, j: usize) -> (r: (usize, usize))
        requires
            self.inv(),
            j < self.spec_num_edges(),
        ensures
            (r.0 as int, r.1 as int) == self.edge_pairs()[j as int],
            r.0 < self.n,
            r.1 < self.n,
    {
        (self.ends[2 * j] as usize, self.ends[2 * j + 1] as usize)
    }

    /// The other view of `e`: the same edge, seen from its other endpoint.
    pub fn reverse(&self, e: StaticEdge) -> (r: StaticEdge)
        requires
            self.inv(),
            self.view_wf(e.0 as int),
        ensures
            r.0 == mate(e.0 as int),
            self.view_wf(r.0 as int),
            self.edge_id(r) == self.edge_id(e),
            self.edge_source(r) == self.edge_target(e),
            self.edge_target(r) == self.edge_source(e),
    {
        e.reverse()
    }
}

/// A write-once accumulator: vertices fixed up front, edges appended one at
/// a time, frozen into a `StaticGraph` by `finalize`.
pub struct StaticGraphBuilder {
    /// The graph under construction.
    pub g: StaticGraph,
}

impl StaticGraphBuilder {
    /// The edges added so far.
    pub open spec fn edge_pairs(&self) -> Seq<(int, int)> {
        self.g.edge_pairs()
    }

    /// The vertex count the builder was started with.
    pub open spec fn spec_n(&self) -> int {
        self.g.n as int
    }

    /// A builder for a graph on `num_vertices` vertices.  The edge count is
    /// only a capacity hint.
    pub fn new(num_vertices: usize, num_edges: usize) -> (b: Self)
        requires
            num_vertices <= u32::MAX,
        ensures
            b.g.inv(),
            b.spec_n() == num_vertices,
            b.g.ends@.len() == 0,
            b.edge_pairs() == Seq::<(int, int)>::empty(),
    {
        let mut inc: Vec<Vec<StaticEdge>> = Vec::new();
        let mut k: usize = 0;
        while k < num_vertices
            invariant
                k <= num_vertices,
                inc@.len() == k,
                forall|v: int| 0 <= v < k ==> (#[trigger] inc@[v])@.len() == 0,
            decreases num_vertices - k,
        {
            inc.push(Vec::new());
            k = k + 1;
        }
        let ends: Vec<u32> = Vec::with_capacity(if num_edges <= usize::MAX / 2 {
            2 * num_edges
        } else {
            0
        });
        let b = StaticGraphBuilder { g: StaticGraph { n: num_vertices, ends, inc } };
        proof {
            assert(b.edge_pairs() =~= Seq::<(int, int)>::empty());
        }
        b
    }

    /// How many edges were added so far.
    pub fn num_edges(&self) -> (r: usize)
        requires
            self.g.inv(),
        ensures
            r == self.edge_pairs().len(),
    {
        self.g.ends.len() / 2
    }

    /// Append the edge `(u, v)`: one new edge identity, its forward view on
    /// `u`'s list and its reverse view on `v`'s list (both on `u`'s when
    /// `u == v`).  No other incidence list changes, so degrees and
    /// per-vertex edge order follow the insertion order exactly.
    pub fn add_edge(&mut self, u: usize, v: usize)
        requires
            old(self).g.inv(),
            u < old(self).spec_n(),
            v < old(self).spec_n(),
            old(self).g.ends@.len() + 2 <= usize::MAX - 1,
        ensures
            final(self).g.inv(),
            final(self).spec_n() == old(self).spec_n(),
            final(self).edge_pairs() =~= old(self).edge_pairs().push((u as int, v as int)),
            ({
                let e = old(self).edge_pairs().len();
                let fwd = StaticEdge((2 * e + 1) as usize);
                let rev = StaticEdge((2 * e) as usize);
                &&& (u != v ==> final(self).g.inc@[u as int]@ == old(self).g.inc@[u as int]@.push(
                    fwd,
                ) && final(self).g.inc@[v as int]@ == old(self).g.inc@[v as int]@.push(rev))
                &&& (u == v ==> final(self).g.inc@[u as int]@ == old(self).g.inc@[
                    u as int]@.push(fwd).push(rev))
                &&& forall|w: int|
                    0 <= w < old(self).spec_n() && w != u && w != v ==> final(self).g.inc@[w]@
                        == old(self).g.inc@[w]@
            }),
    {
        let e = self.g.ends.len() / 2;
        let fwd = StaticEdge(2 * e + 1);
        let rev = StaticEdge(2 * e);
        self.g.ends.push(u as u32);
        self.g.ends.push(v as u32);
        self.g.inc[u].push(fwd);
        self.g.inc[v].push(rev);
        proof {
            let s = &self.g;
            let o = &old(self).g;
            assert(s.ends@.len() == o.ends@.len() + 2);
            if u == v {
                let len = s.inc@[u as int]@.len();
                assert(s.inc@[u as int]@[len - 2].0 as int == 2 * e + 1);
                assert(s.inc@[u as int]@[len - 1].0 as int == 2 * e);
            } else {
                let ju = s.inc@[u as int]@.len() - 1;
                assert(s.inc@[u as int]@[ju].0 as int == 2 * e + 1);
                let jv = s.inc@[v as int]@.len() - 1;
                assert(s.inc@[v as int]@[jv].0 as int == 2 * e);
            }
            assert(s.inc_has(u as int, 2 * e + 1));
            assert(s.inc_has(v as int, 2 * e));
            assert forall|d: int| 0 <= d < s.ends@.len() implies s.inc_has(
                s.ends@[mate(d)] as int,
                d,
            ) by {
                if d < o.ends@.len() {
                    assert(o.inc_has(o.ends@[mate(d)] as int, d));
                    let w = o.ends@[mate(d)] as int;
                    let j = choose|j: int|
                        0 <= j < o.inc@[w]@.len() && (#[trigger] o.inc@[w]@[j]).0 == d;
                    assert(s.inc@[w]@[j].0 == d);
                    assert(s.inc_has(w, d));
                } else if d == 2 * e {
                    assert(s.ends@[mate(d)] == v as u32);
                } else {
                    assert(d == 2 * e + 1);
                    assert(s.ends@[mate(d)] == u as u32);
                }
            }
            assert(final(self).edge_pairs() =~= old(self).edge_pairs().push((u as int, v as int)));
        }
    }

    /// Freeze the builder into the finished graph: the result is the built
    /// graph itself, incidence lists included.
    pub fn finalize(self) -> (g: StaticGraph)
        requires
            self.g.inv(),
        ensures
            g == self.g,
            g.inv(),
            g.n == self.spec_n(),
            g.edge_pairs() == self.edge_pairs(),
    {
        self.g
    }

    /// Freeze the builder and hand back the graph together with its vertex
    /// and edge lists.
    pub fn finalize_(self) -> (r: (StaticGraph, Vec<usize>, Vec<StaticEdge>))
        requires
            self.g.inv(),
        ensures
            r.0 == self.g,
            r.0.inv(),
            r.0.n == self.spec_n(),
            r.0.edge_pairs() == self.edge_pairs(),
            r.1@.len() == self.spec_n(),
            forall|i: int| 0 <= i < r.1@.len() ==> r.1@[i] == i,
            r.2@.len() == self.edge_pairs().len(),
            forall|j: int| 0 <= j < r.2@.len() ==> (#[trigger] r.2@[j]).0 == 2 * j + 1,
    {
        let g = self.g;
        let v = g.vertices();
        let e = g.edges();
        (g, v, e)
    }
}

} // verus!
