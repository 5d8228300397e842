//! The complete-graph representation: every pair of distinct vertices below
//! `n` is an edge, nothing but the vertex count is stored, and every edge is
//! computed through the dense codec.  Lookup, reversal and degree are all
//! constant time; the out-neighbor cursor supports constant-time random
//! access.

use vstd::prelude::*;
use crate::codec::CVertex;
use crate::codec::DirectedEdge;
use crate::codec::EdgeImpl;
use crate::codec::UndirectedEdge;
use crate::codec::edge_space_fits;
use crate::codec::directed_code_count;
use crate::codec::undirected_index_count;
use crate::codec::valid_pair;
use crate::graphs::Incidence;

verus! {

/// An edge kind of the complete graph: picks the edge representation and
/// says whether the graph is directed.
pub trait CompleteEdgeKind {
    /// The edge representation of this kind.
    type Edge: EdgeImpl;

    /// Whether edges of this kind are directed.
    spec fn directed() -> bool;

    /// Executable view of `directed`.
    fn is_directed() -> (b: bool)
        ensures
            b == Self::directed(),
    ;

    /// The index space of the edge representation, stated over the kind: the
    /// full code space when directed, half of it when undirected.
    proof fn lemma_count(n: int)
        requires
            0 <= n,
        ensures
            <Self::Edge as EdgeImpl>::spec_count(n) == if Self::directed() {
                directed_code_count(n)
            } else {
                undirected_index_count(n)
            },
    ;
}

/// The undirected edge kind.
pub struct Undirected;

/// The directed edge kind.
pub struct Directed;

impl CompleteEdgeKind for Undirected {
    type Edge = UndirectedEdge;

    open spec fn directed() -> bool {
        false
    }

    fn is_directed() -> (b: bool) {
        false
    }

    proof fn lemma_count(n: int) {
    }
}

impl CompleteEdgeKind for Directed {
    type Edge = DirectedEdge;

    open spec fn directed() -> bool {
        true
    }

    fn is_directed() -> (b: bool) {
        true
    }

    proof fn lemma_count(n: int) {
    }
}

/// A complete graph on `n` vertices.  It owns nothing but the count: the
/// whole edge set is conceptual, reached through the codec.
pub struct Complete<K: CompleteEdgeKind> {
    pub n: CVertex,
    pub _marker: core::marker::PhantomData<K>,
}

/// The undirected complete graph.
pub type CompleteGraph = Complete<Undirected>;

/// The directed complete graph.
pub type CompleteDigraph = Complete<Directed>;

impl<K: CompleteEdgeKind> Complete<K> {
    /// The vertex count.
    pub open spec fn spec_n(&self) -> int {
        self.n as int
    }

    /// Well-formed: the edge space fits the machine's index type.
    pub open spec fn wf(&self) -> bool {
        edge_space_fits(self.n)
    }

    /// The number of conceptual edges.
    pub open spec fn spec_num_edges(&self) -> int {
        if K::directed() {
            directed_code_count(self.spec_n())
        } else {
            undirected_index_count(self.spec_n())
        }
    }

    /// A complete graph on `n` vertices.
    pub fn new(n: CVertex) -> (g: Self)
        requires
            edge_space_fits(n),
        ensures
            g.wf(),
            g.spec_n() == n,
    {
        Complete { n, _marker: core::marker::PhantomData }
    }

    /// How many vertices the graph has.
    pub fn num_vertices(&self) -> (r: usize)
        ensures
            r == self.spec_n(),
    {
        self.n as usize
    }

    /// All vertices, in increasing order.
    pub fn vertices(&self) -> (r: Vec<CVertex>)
        ensures
            r@.len() == self.spec_n(),
            forall|i: int| 0 <= i < r@.len() ==> r@[i] == i,
    {
        let mut r: Vec<CVertex> = Vec::new();
        let mut v: CVertex = 0;
        while v < self.n
            invariant
                v <= self.n,
                r@.len() == v,
                forall|i: int| 0 <= i < r@.len() ==> r@[i] == i,
            decreases self.n - v,
        {
            r.push(v);
            v = v + 1;
        }
        r
    }

    /// How many edges the graph has: `n * (n - 1)` ordered pairs when
    /// directed, half that many unordered pairs when undirected.
    pub fn num_edges(&self) -> (r: usize)
        requires
            self.wf(),
        ensures
            r == self.spec_num_edges(),
    {
        let n = self.n as usize;
        proof {
            assert(n == self.spec_n());
        }
        if n == 0 {
            proof {
                let z = self.spec_n();
                assert(z * (z - 1) == 0) by (nonlinear_arith)
                    requires z == 0;
            }
            0
        } else if K::is_directed() {
            n * (n - 1)
        } else {
            n * (n - 1) / 2
        }
    }

    /// The source endpoint of `e`.
    pub fn source(&self, e: K::Edge) -> (r: CVertex)
        requires
            self.wf(),
            e.spec_valid(self.spec_n()),
        ensures
            r == e.spec_ends(self.spec_n()).0,
            0 <= r < self.spec_n(),
    {
        e.ends(self.n).0
    }

    /// The target endpoint of `e`.
    pub fn target(&self, e: K::Edge) -> (r: CVertex)
        requires
            self.wf(),
            e.spec_valid(self.spec_n()),
        ensures
            r == e.spec_ends(self.spec_n()).1,
            0 <= r < self.spec_n(),
    {
        e.ends(self.n).1
    }

    /// Both endpoints of `e`, in the edge's own orientation.
    pub fn end_vertices(&self, e: K::Edge) -> (r: (CVertex, CVertex))
        requires
            self.wf(),
            e.spec_valid(self.spec_n()),
        ensures
            (r.0 as int, r.1 as int) == e.spec_ends(self.spec_n()),
            valid_pair(self.spec_n(), r.0 as int, r.1 as int),
    {
        e.ends(self.n)
    }

    /// The edge with the endpoints of `e` swapped.
    pub fn reverse(&self, e: K::Edge) -> (r: K::Edge)
        requires
            self.wf(),
            e.spec_valid(self.spec_n()),
        ensures
            r.spec_valid(self.spec_n()),
            r.spec_ends(self.spec_n())
                == (e.spec_ends(self.spec_n()).1, e.spec_ends(self.spec_n()).0),
    {
        e.reverse(self.n)
    }

    /// The reverse of `e`; every edge of a complete graph has one.
    pub fn get_reverse(&self, e: K::Edge) -> (r: Option<K::Edge>)
        requires
            self.wf(),
            e.spec_valid(self.spec_n()),
        ensures
            r is Some,
            r->0.spec_valid(self.spec_n()),
            r->0.spec_ends(self.spec_n())
                == (e.spec_ends(self.spec_n()).1, e.spec_ends(self.spec_n()).0),
    {
        Some(e.reverse(self.n))
    }

    /// The edge between `u` and `v`, oriented from `u` to `v`.  It exists
    /// exactly when both endpoints are in range and distinct: the graph is
    /// complete, so no other lookup can fail.
    pub fn get_edge_by_ends(&self, u: CVertex, v: CVertex) -> (r: Option<K::Edge>)
        requires
            self.wf(),
        ensures
            r is Some <==> valid_pair(self.spec_n(), u as int, v as int),
            r is Some ==> r->0.spec_valid(self.spec_n())
                && r->0.spec_ends(self.spec_n()) == (u as int, v as int),
    {
        if u < self.n && v < self.n && u != v {
            Some(<K::Edge as EdgeImpl>::new(self.n, u, v))
        } else {
            None
        }
    }

    /// The out-degree of `v`: every other vertex is a neighbor.
    pub fn out_degree(&self, v: CVertex) -> (r: usize)
        requires
            v < self.spec_n(),
        ensures
            r == self.spec_n() - 1,
    {
        self.n as usize - 1
    }

    /// A cursor over the out-neighbors of `v`, in increasing order.
    pub fn out_neighbors(&self, v: CVertex) -> (it: COutNeighborIter)
        requires
            v < self.spec_n(),
        ensures
            it.wf(),
            it.source() == v,
            it.bound() == self.spec_n(),
            it.remaining() == nbr_seq(v as int, self.spec_n()),
    {
        COutNeighborIter::new(v, self.n)
    }

    /// A cursor over the out-edges of `v`: the edges from `v` to each
    /// neighbor, in increasing order of neighbor.
    pub fn out_edges(&self, v: CVertex) -> (it: COutEdgeIter<K::Edge>)
        requires
            self.wf(),
            v < self.spec_n(),
        ensures
            it.wf(),
            it.source() == v,
            it.bound() == self.spec_n(),
            it.remaining_count() == self.spec_n() - 1,
    {
        COutEdgeIter::new(self.n, v)
    }

    /// Map a uniform draw to a vertex; `None` on the empty graph.
    pub fn choose_vertex(&self, draw: u64) -> (r: Option<CVertex>)
        ensures
            r is Some <==> self.spec_n() > 0,
            r is Some ==> r->0 == draw as int % self.spec_n(),
    {
        if self.n == 0 {
            None
        } else {
            Some((draw % self.n as u64) as CVertex)
        }
    }

    /// Map a uniform draw to an out-edge of `v`: the draw picks one of the
    /// `n - 1` neighbors in increasing order, skipping `v` itself.  `None`
    /// exactly when `v` has no neighbor.
    pub fn choose_out_edge(&self, v: CVertex, draw: u64) -> (r: Option<K::Edge>)
        requires
            self.wf(),
            v < self.spec_n(),
        ensures
            r is Some <==> self.spec_n() > 1,
            r is Some ==> r->0.spec_valid(self.spec_n())
                && r->0.spec_ends(self.spec_n()) == (
                v as int,
                ({
                    let w = draw as int % (self.spec_n() - 1);
                    if w >= v {
                        w + 1
                    } else {
                        w
                    }
                }),
            ),
    {
        if self.n <= 1 {
            None
        } else {
            let w = (draw % (self.n as u64 - 1)) as CVertex;
            let u = if w >= v { w + 1 } else { w };
            Some(<K::Edge as EdgeImpl>::new(self.n, v, u))
        }
    }

    /// Map a uniform draw to an out-neighbor of `v`: the target of the
    /// out-edge the same draw picks.
    pub fn choose_out_neighbor(&self, v: CVertex, draw: u64) -> (r: Option<CVertex>)
        requires
            self.wf(),
            v < self.spec_n(),
        ensures
            r is Some <==> self.spec_n() > 1,
            r is Some ==> r->0 == ({
                let w = draw as int % (self.spec_n() - 1);
                if w >= v {
                    w + 1
                } else {
                    w
                }
            }) && r->0 < self.spec_n() && r->0 != v,
    {
        match self.choose_out_edge(v, draw) {
            None => None,
            Some(e) => Some(self.target(e)),
        }
    }

    /// Map a pair of uniform draws to an edge: the draw picks an edge
    /// index, the flag picks the orientation.  `None` exactly when the
    /// graph has no edge.
    pub fn choose_edge(&self, draw: u64, flip: bool) -> (r: Option<K::Edge>)
        requires
            self.wf(),
        ensures
            r is Some <==> self.spec_num_edges() > 0,
            r is Some ==> r->0.spec_valid(self.spec_n()),
            r is Some && !flip ==> r->0 == <K::Edge as EdgeImpl>::spec_from_index(
                draw as int % self.spec_num_edges(),
            ),
            r is Some && flip ==> ({
                let e0 = <K::Edge as EdgeImpl>::spec_from_index(
                    draw as int % self.spec_num_edges(),
                );
                r->0.spec_ends(self.spec_n()) == (
                    e0.spec_ends(self.spec_n()).1,
                    e0.spec_ends(self.spec_n()).0,
                )
            }),
    {
        let m = self.num_edges();
        if m == 0 {
            None
        } else {
            proof {
                K::lemma_count(self.spec_n());
                <K::Edge as EdgeImpl>::lemma_none_index_large(self.n);
            }
            let i = (draw % m as u64) as usize;
            proof {
                <K::Edge as EdgeImpl>::lemma_from_index_ok(i as int, self.n);
            }
            let e = <K::Edge as EdgeImpl>::from_index(i);
            proof {
                e.lemma_valid_iff_index(self.spec_n());
            }
            if flip {
                Some(e.reverse(self.n))
            } else {
                Some(e)
            }
        }
    }
}

impl<K: CompleteEdgeKind> Incidence for Complete<K> {
    type Edge = K::Edge;

    open spec fn wf(&self) -> bool {
        edge_space_fits(self.n)
    }

    open spec fn spec_n(&self) -> int {
        self.n as int
    }

    open spec fn undirected() -> bool {
        !K::directed()
    }

    open spec fn edge_wf(&self, e: K::Edge) -> bool {
        e.spec_valid(self.n as int)
    }

    open spec fn edge_source(&self, e: K::Edge) -> int {
        e.spec_ends(self.n as int).0
    }

    open spec fn edge_target(&self, e: K::Edge) -> int {
        e.spec_ends(self.n as int).1
    }

    open spec fn edge_id(&self, e: K::Edge) -> int {
        e.spec_index()
    }

    open spec fn spec_out_degree(&self, v: int) -> int {
        if 0 <= v < self.n {
            self.n - 1
        } else {
            0
        }
    }

    open spec fn spec_out_edge(&self, v: int, i: int) -> K::Edge {
        <K::Edge as EdgeImpl>::spec_new(self.n as int, v, if i < v {
            i
        } else {
            i + 1
        })
    }

    proof fn lemma_edge_bounds(&self, e: K::Edge) {
        e.lemma_ends_valid(self.n as int);
    }

    proof fn lemma_same_id_ends(&self, a: K::Edge, b: K::Edge) {
        a.lemma_same_index_ends(b, self.n as int);
    }

    proof fn lemma_out_edge_wf(&self, v: int, i: int) {
        let w = if i < v { i } else { i + 1 };
        <K::Edge as EdgeImpl>::lemma_spec_new(self.n as int, v, w);
    }

    proof fn lemma_adjacent_sym(&self, u: int, w: int) {
        let n = self.n as int;
        let i = choose|i: int|
            0 <= i < self.spec_out_degree(u) && self.edge_target(
                #[trigger] self.spec_out_edge(u, i),
            ) == w;
        let x = if i < u { i } else { i + 1 };
        <K::Edge as EdgeImpl>::lemma_spec_new(n, u, x);
        assert(w == x);
        let j = if u < w { u } else { u - 1 };
        <K::Edge as EdgeImpl>::lemma_spec_new(n, w, u);
        assert(self.edge_target(self.spec_out_edge(w, j)) == u);
        assert(0 <= j < self.spec_out_degree(w));
    }

    fn num_vertices(&self) -> (r: usize) {
        self.n as usize
    }

    fn out_degree(&self, v: usize) -> (r: usize) {
        self.n as usize - 1
    }

    fn out_edge_at(&self, v: usize, i: usize) -> (e: K::Edge) {
        let w = if i < v {
            i
        } else {
            i + 1
        };
        <K::Edge as EdgeImpl>::new(self.n, v as CVertex, w as CVertex)
    }

    fn source(&self, e: K::Edge) -> (r: usize) {
        e.ends(self.n).0 as usize
    }

    fn target(&self, e: K::Edge) -> (r: usize) {
        e.ends(self.n).1 as usize
    }

    fn is_undirected_edge(&self, e: K::Edge) -> (r: bool) {
        !K::is_directed()
    }

    fn same_edge(&self, a: K::Edge, b: K::Edge) -> (r: bool) {
        a.same_identity(b)
    }
}

/// A complete graph is connected: any two distinct vertices are adjacent,
/// so every pair is joined by a walk of one edge.
pub proof fn lemma_complete_connected<K: CompleteEdgeKind>(g: &Complete<K>)
    requires
        g.wf(),
    ensures
        crate::graphs::spec_connected(g),
{
    let n = g.spec_n();
    assert forall|u: int, w: int|
        0 <= u < n && 0 <= w < n implies crate::graphs::connected_pair(g, u, w) by {
        crate::graphs::lemma_connected_refl(g, u);
        if u != w {
            let i = if w < u {
                w
            } else {
                w - 1
            };
            <K::Edge as EdgeImpl>::lemma_spec_new(n, u, w);
            assert(g.edge_target(g.spec_out_edge(u, i)) == w);
            assert(crate::graphs::adjacent(g, u, w));
            crate::graphs::lemma_connected_step(g, u, u, w);
        }
    }
}

/// The identity property of vertices: a vertex's index is its own value.
#[derive(Clone, Debug)]
pub struct CVertexIndexProp;

impl CVertexIndexProp {
    /// The property-map slot of vertex `x`.
    pub fn get(&self, x: CVertex) -> (r: usize)
        ensures
            r == x,
    {
        x as usize
    }
}

/// The index property of dense edges: each edge's slot is its codec index,
/// shared with its reverse in the undirected variant.
#[derive(Debug)]
pub struct CEdgeIndexProp<E> {
    /// The edge representation the property indexes.
    pub _marker: core::marker::PhantomData<E>,
}

impl<E: EdgeImpl> CEdgeIndexProp<E> {
    /// The property-map slot of edge `e`.
    pub fn get(&self, e: E) -> (r: usize)
        ensures
            r == e.spec_index(),
    {
        e.to_index()
    }
}

/// Builds the sentinel edge standing for "no edge" in dense stores.
#[derive(Debug)]
pub struct MaxNone<E> {
    /// The edge representation the sentinel belongs to.
    pub _marker: core::marker::PhantomData<E>,
}

impl<E: EdgeImpl> MaxNone<E> {
    /// The sentinel edge.  Its index lies outside the index space of every
    /// graph whose edge space fits, so no valid edge collides with it.
    pub fn none() -> (e: E)
        ensures
            e.spec_index() == E::spec_none_index(),
    {
        E::none_edge()
    }
}

/// A valid edge of a fitting graph never equals the sentinel.
pub proof fn lemma_none_is_no_edge<E: EdgeImpl>(e: E, n: CVertex)
    requires
        edge_space_fits(n),
        e.spec_valid(n as int),
    ensures
        e.spec_index() != E::spec_none_index(),
{
    e.lemma_valid_iff_index(n as int);
    E::lemma_none_index_large(n);
}

impl<K: CompleteEdgeKind> Complete<K> {
    /// The vertex index property of this graph.
    pub fn vertex_index(&self) -> (r: CVertexIndexProp)
    {
        CVertexIndexProp
    }

    /// The edge index property of this graph.
    pub fn edge_index(&self) -> (r: CEdgeIndexProp<K::Edge>)
    {
        CEdgeIndexProp { _marker: core::marker::PhantomData }
    }
}

/// An enumeration of every edge of a complete graph, one per edge index in
/// increasing order: each conceptual edge is produced exactly once, in its
/// canonical orientation, without materializing any list.
pub struct CEdgesIter<E> {
    /// The vertex count.
    pub n: CVertex,
    /// The next edge index.
    pub i: usize,
    /// The number of edge indices.
    pub m: usize,
    /// The edge representation enumerated.
    pub _marker: core::marker::PhantomData<E>,
}

impl<E: EdgeImpl> CEdgesIter<E> {
    /// A state that can keep stepping.
    pub open spec fn wf(self) -> bool {
        &&& edge_space_fits(self.n)
        &&& self.i <= self.m
        &&& self.m == E::spec_count(self.n as int)
    }

    /// The next edge: the one with the next index.
    pub fn next(&mut self) -> (r: Option<E>)
        requires
            old(self).wf(),
        ensures
            final(self).wf(),
            final(self).n == old(self).n,
            final(self).m == old(self).m,
            old(self).i >= old(self).m ==> r is None && final(self).i == old(self).i,
            old(self).i < old(self).m ==> final(self).i == old(self).i + 1 && (r matches Some(e)
                && e.spec_index() == old(self).i && e.spec_valid(old(self).n as int)),
    {
        if self.i >= self.m {
            None
        } else {
            proof {
                E::lemma_from_index_ok(self.i as int, self.n);
            }
            let e = E::from_index(self.i);
            proof {
                e.lemma_valid_iff_index(self.n as int);
            }
            self.i = self.i + 1;
            Some(e)
        }
    }

    /// How many edges are left.
    pub fn len(&self) -> (r: usize)
        requires
            self.wf(),
        ensures
            r == self.m - self.i,
    {
        self.m - self.i
    }

    /// Lower and upper bound on how many edges are left; both exact.
    pub fn size_hint(&self) -> (r: (usize, Option<usize>))
        requires
            self.wf(),
        ensures
            r.0 == self.m - self.i,
            r.1 == Some(r.0),
    {
        let rem = self.m - self.i;
        (rem, Some(rem))
    }
}

impl<K: CompleteEdgeKind> Complete<K> {
    /// Enumerate every edge once, by increasing index.
    pub fn edges(&self) -> (it: CEdgesIter<K::Edge>)
        requires
            self.wf(),
        ensures
            it.wf(),
            it.n == self.n,
            it.i == 0,
            it.m == self.spec_num_edges(),
    {
        proof {
            K::lemma_count(self.spec_n());
        }
        let m = self.num_edges();
        CEdgesIter { n: self.n, i: 0, m, _marker: core::marker::PhantomData }
    }
}

/// The sequence of out-neighbors of `source` in a complete graph on `n`
/// vertices: every vertex except `source`, in increasing order.
pub open spec fn nbr_seq(source: int, n: int) -> Seq<int> {
    Seq::new(if n >= 1 { (n - 1) as nat } else { 0 }, |i: int| if i < source { i } else { i + 1 })
}

/// A cursor over the out-neighbors of a vertex of a complete graph.  It
/// never materializes the neighbor list: stepping and random access are
/// cursor arithmetic.
pub struct COutNeighborIter {
    pub cur: CVertex,
    pub source: CVertex,
    pub n: CVertex,
}

impl COutNeighborIter {
    /// The vertex whose neighbors are enumerated.
    pub open spec fn source(self) -> int {
        self.source as int
    }

    /// The vertex count of the graph.
    pub open spec fn bound(self) -> int {
        self.n as int
    }

    /// How many neighbors have been passed already.
    pub open spec fn pos(self) -> int {
        if self.cur <= self.source {
            self.cur as int
        } else {
            self.cur as int - 1
        }
    }

    /// A cursor state that can still be stepped.
    pub open spec fn wf(self) -> bool {
        self.source < self.n && self.cur <= self.n
    }

    /// The neighbors not yet yielded, in order.
    pub open spec fn remaining(self) -> Seq<int> {
        nbr_seq(self.source as int, self.n as int).skip(self.pos())
    }

    /// A fresh cursor over the neighbors of `source` among `n` vertices.
    pub fn new(source: CVertex, n: CVertex) -> (it: Self)
        requires
            source < n,
        ensures
            it.wf(),
            it.source() == source,
            it.bound() == n,
            it.remaining() == nbr_seq(source as int, n as int),
    {
        let it = COutNeighborIter { cur: 0, source, n };
        proof {
            assert(it.remaining() =~= nbr_seq(source as int, n as int));
        }
        it
    }

    /// How many neighbors are left.
    pub fn len(&self) -> (r: usize)
        requires
            self.wf(),
        ensures
            r == self.remaining().len(),
    {
        (self.n - self.cur - if self.cur <= self.source { 1 } else { 0 }) as usize
    }

    /// Lower and upper bound on how many neighbors are left; both exact.
    pub fn size_hint(&self) -> (r: (usize, Option<usize>))
        requires
            self.wf(),
        ensures
            r.0 == self.remaining().len(),
            r.1 == Some(r.0),
    {
        let rem = self.len();
        (rem, Some(rem))
    }

    /// The next neighbor, if one is left.
    pub fn next(&mut self) -> (r: Option<CVertex>)
        requires
            old(self).wf(),
        ensures
            final(self).wf(),
            final(self).source() == old(self).source(),
            final(self).bound() == old(self).bound(),
            old(self).remaining().len() == 0 ==> r is None
                && final(self).remaining().len() == 0,
            old(self).remaining().len() > 0 ==> r == Some(
                (old(self).remaining()[0] as CVertex),
            ) && final(self).remaining() == old(self).remaining().skip(1),
    {
        if self.cur == self.source && self.cur != self.n {
            self.cur = self.cur + 1;
        }
        if self.cur == self.n {
            proof {
                assert(self.pos() == old(self).pos());
                assert(self.remaining() =~= old(self).remaining());
            }
            return None;
        }
        let cur = self.cur;
        self.cur = self.cur + 1;
        proof {
            assert(final(self).remaining() =~= old(self).remaining().skip(1));
        }
        Some(cur)
    }

    /// Random access: the `k`-th neighbor not yet yielded, reached with
    /// cursor arithmetic, not by stepping `k` times.  Consumes everything up
    /// to and including that neighbor; an out-of-range `k` exhausts the
    /// cursor.
    pub fn nth(&mut self, k: usize) -> (r: Option<CVertex>)
        requires
            old(self).wf(),
        ensures
            final(self).wf(),
            final(self).source() == old(self).source(),
            final(self).bound() == old(self).bound(),
            k < old(self).remaining().len() ==> r == Some(
                (old(self).remaining()[k as int] as CVertex),
            ) && final(self).remaining() == old(self).remaining().skip(k as int + 1),
            k >= old(self).remaining().len() ==> r is None
                && final(self).remaining().len() == 0,
    {
        let rem = self.len();
        if k >= rem {
            self.cur = self.n;
            proof {
                assert(final(self).remaining() =~= Seq::<int>::empty());
            }
            return None;
        }
        let j = (if self.cur <= self.source { self.cur } else { self.cur - 1 }) + (k as CVertex);
        let w = if j < self.source { j } else { j + 1 };
        self.cur = w + 1;
        proof {
            assert(w == old(self).remaining()[k as int]);
            assert(final(self).remaining() =~= old(self).remaining().skip(k as int + 1));
        }
        Some(w)
    }

    /// The cursor state after `k` neighbors have been stepped over one by
    /// one.
    pub open spec fn spec_skip(self, k: int) -> Self {
        let p = self.pos() + k;
        COutNeighborIter {
            cur: if p < self.source as int {
                p as CVertex
            } else if p < self.n as int {
                (p + 1) as CVertex
            } else {
                self.n
            },
            source: self.source,
            n: self.n,
        }
    }

    /// Stepping `k` times skips exactly `k` leading neighbors.
    pub proof fn lemma_skip_remaining(self, k: int)
        requires
            self.wf(),
            0 <= k,
        ensures
            self.spec_skip(k).wf(),
            self.spec_skip(k).remaining() =~= if k <= self.remaining().len() {
                self.remaining().skip(k)
            } else {
                Seq::<int>::empty()
            },
    {
    }

    /// Random access agrees with stepping: `nth(k)` yields the same
    /// neighbor that `k` single steps followed by one more step would, and
    /// `None` in the same cases.
    pub proof fn lemma_nth_equivalence(self, k: int)
        requires
            self.wf(),
            0 <= k,
        ensures
            k < self.remaining().len() ==> self.remaining()[k]
                == self.spec_skip(k).remaining()[0],
            k >= self.remaining().len() ==> self.spec_skip(k).remaining().len() == 0,
    {
        self.lemma_skip_remaining(k);
    }
}

/// A cursor over the out-edges of a vertex of a complete graph: the edge to
/// each neighbor, produced through the codec.
pub struct COutEdgeIter<E> {
    pub n: CVertex,
    pub rem: usize,
    pub u: CVertex,
    pub v: CVertex,
    pub _marker: core::marker::PhantomData<E>,
}

impl<E: EdgeImpl> COutEdgeIter<E> {
    /// The vertex whose out-edges are enumerated.
    pub open spec fn source(self) -> int {
        self.u as int
    }

    /// The vertex count of the graph.
    pub open spec fn bound(self) -> int {
        self.n as int
    }

    /// How many out-edges are left.
    pub open spec fn remaining_count(self) -> int {
        self.rem as int
    }

    /// How many neighbors have been passed already.
    pub open spec fn pos(self) -> int {
        if self.v <= self.u {
            self.v as int
        } else {
            self.v as int - 1
        }
    }

    /// A cursor state that can still be stepped.
    pub open spec fn wf(self) -> bool {
        edge_space_fits(self.n) && self.u < self.n && self.v <= self.n
            && self.rem == self.n - 1 - self.pos()
    }

    /// A fresh cursor over the out-edges of `u` among `n` vertices.
    pub fn new(n: CVertex, u: CVertex) -> (it: Self)
        requires
            edge_space_fits(n),
            u < n,
        ensures
            it.wf(),
            it.source() == u,
            it.bound() == n,
            it.remaining_count() == n - 1,
    {
        COutEdgeIter { n, rem: (n - 1) as usize, u, v: 0, _marker: core::marker::PhantomData }
    }

    /// How many out-edges are left.
    pub fn len(&self) -> (r: usize)
        ensures
            r == self.remaining_count(),
    {
        self.rem
    }

    /// Lower and upper bound on how many out-edges are left; both exact.
    pub fn size_hint(&self) -> (r: (usize, Option<usize>))
        ensures
            r.0 == self.remaining_count(),
            r.1 == Some(r.0),
    {
        (self.rem, Some(self.rem))
    }

    /// The next out-edge: the edge from the source to its next neighbor in
    /// increasing order.
    pub fn next(&mut self) -> (r: Option<E>)
        requires
            old(self).wf(),
        ensures
            final(self).wf(),
            final(self).source() == old(self).source(),
            final(self).bound() == old(self).bound(),
            old(self).remaining_count() == 0 ==> r is None
                && final(self).remaining_count() == 0,
            old(self).remaining_count() > 0 ==> final(self).remaining_count()
                == old(self).remaining_count() - 1 && (r matches Some(e)
                && e.spec_valid(old(self).bound())
                && e.spec_ends(old(self).bound()) == (
                old(self).source(),
                nbr_seq(old(self).source(), old(self).bound())[old(self).pos()],
            )),
    {
        if self.rem == 0 {
            None
        } else {
            if self.u == self.v {
                self.v = self.v + 1;
            }
            let e = <E as EdgeImpl>::new(self.n, self.u, self.v);
            self.v = self.v + 1;
            self.rem = self.rem - 1;
            Some(e)
        }
    }
}

} // verus!
