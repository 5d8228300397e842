//! Distance queries: a verified shortest-distance computation, the diameter
//! it yields when run from every vertex, and a distance-recording visitor
//! for observing the same per-root distances through the traversal engine.

use vstd::prelude::*;
use crate::algs::in_list;
use crate::graphs::Incidence;
use crate::graphs::adjacent;
use crate::graphs::connected_pair;
use crate::graphs::has_walk_len;
use crate::graphs::is_walk;
use crate::graphs::lemma_connected_short_walk;
use crate::graphs::lemma_walk_extend;
use crate::graphs::lemma_walk_refl;
use crate::props::PropMap;
use crate::traverse::Control;
use crate::traverse::TraverseEvent;
use crate::traverse::Visitor;

verus! {

/// A visitor recording, for each vertex, its breadth first distance from
/// the current root: the root gets zero, each tree edge's target gets its
/// source's distance plus one.
pub struct RecordDistance<E> {
    /// The distance of each vertex from the current root; `usize::MAX`
    /// where the run did not reach.
    pub dist: PropMap<usize>,
    /// The events shown so far.
    pub history: Ghost<Seq<TraverseEvent<E>>>,
}

impl<E> RecordDistance<E> {
    /// A fresh map with every vertex unreached.
    pub fn new(n: usize) -> (v: Self)
        ensures
            v.dist@.len() == n,
            forall|i: int| 0 <= i < n ==> v.dist@[i] == usize::MAX,
    {
        RecordDistance { dist: PropMap::with_default(n, usize::MAX), history: Ghost(Seq::empty()) }
    }

    /// Reset every vertex to unreached, for the next run.
    pub fn reset(&mut self)
        ensures
            final(self).dist@.len() == old(self).dist@.len(),
            forall|i: int| 0 <= i < final(self).dist@.len() ==> final(self).dist@[i] == usize::MAX,
    {
        self.dist.fill(usize::MAX);
    }
}

impl<G: Incidence> Visitor<G> for RecordDistance<G::Edge> {
    open spec fn inv(&self, g: &G) -> bool {
        self.dist@.len() == g.spec_n()
    }

    open spec fn never_breaks(&self) -> bool {
        true
    }

    open spec fn history(&self) -> Seq<TraverseEvent<G::Edge>> {
        self.history@
    }

    fn start(&mut self, g: &G) -> (c: Control) {
        self.history = Ghost(self.history@.push(TraverseEvent::Start));
        Control::Continue
    }

    /// A new root is at distance zero from itself.
    fn discover_root_vertex(&mut self, g: &G, v: usize) -> (c: Control)
        ensures
            final(self).dist@ == old(self).dist@.update(v as int, 0usize),
    {
        self.history = Ghost(self.history@.push(TraverseEvent::DiscoverRootVertex(v)));
        self.dist.set(v, 0);
        Control::Continue
    }

    fn discover_vertex(&mut self, g: &G, v: usize) -> (c: Control) {
        self.history = Ghost(self.history@.push(TraverseEvent::DiscoverVertex(v)));
        Control::Continue
    }

    fn discover_edge(&mut self, g: &G, e: G::Edge) -> (c: Control) {
        self.history = Ghost(self.history@.push(TraverseEvent::DiscoverEdge(e)));
        Control::Continue
    }

    /// A tree edge's target sits one step beyond its source.
    fn discover_tree_edge(&mut self, g: &G, e: G::Edge) -> (c: Control)
        ensures
            final(self).dist@ == old(self).dist@.update(
                g.edge_target(e),
                (if old(self).dist@[g.edge_source(e)] < usize::MAX {
                    (old(self).dist@[g.edge_source(e)] + 1) as usize
                } else {
                    usize::MAX
                }),
            ),
    {
        self.history = Ghost(self.history@.push(TraverseEvent::DiscoverTreeEdge(e)));
        proof {
            g.lemma_edge_bounds(e);
        }
        let u = g.source(e);
        let w = g.target(e);
        let du = self.dist.get(u);
        let next = if du < usize::MAX {
            du + 1
        } else {
            usize::MAX
        };
        self.dist.set(w, next);
        Control::Continue
    }

    fn discover_back_edge(&mut self, g: &G, e: G::Edge) -> (c: Control) {
        self.history = Ghost(self.history@.push(TraverseEvent::DiscoverBackEdge(e)));
        Control::Continue
    }

    fn discover_cross_or_forward_edge(&mut self, g: &G, e: G::Edge) -> (c: Control) {
        self.history = Ghost(self.history@.push(TraverseEvent::DiscoverCrossOrForwardEdge(e)));
        Control::Continue
    }

    fn finish_edge(&mut self, g: &G, e: G::Edge) -> (c: Control) {
        self.history = Ghost(self.history@.push(TraverseEvent::FinishEdge(e)));
        Control::Continue
    }

    fn finish_tree_edge(&mut self, g: &G, e: G::Edge) -> (c: Control) {
        self.history = Ghost(self.history@.push(TraverseEvent::FinishTreeEdge(e)));
        Control::Continue
    }

    fn finish_vertex(&mut self, g: &G, v: usize) -> (c: Control) {
        self.history = Ghost(self.history@.push(TraverseEvent::FinishVertex(v)));
        Control::Continue
    }

    fn finish_root_vertex(&mut self, g: &G, v: usize) -> (c: Control) {
        self.history = Ghost(self.history@.push(TraverseEvent::FinishRootVertex(v)));
        Control::Continue
    }

    fn finish(&mut self, g: &G) -> (c: Control) {
        self.history = Ghost(self.history@.push(TraverseEvent::Finish));
        Control::Continue
    }
}

/// A distance slot capped at `n`: the unreached sentinel and any value at
/// least `n` weigh `n`, so relaxing a slot always lowers the weight.
pub open spec fn capped(x: usize, n: int) -> int {
    if (x as int) < n {
        x as int
    } else {
        n
    }
}

/// The total capped weight of a distance map of `n` slots.
pub open spec fn dsum(s: Seq<usize>, n: int) -> int
    decreases s.len(),
{
    if s.len() == 0 {
        0
    } else {
        dsum(s.drop_last(), n) + capped(s.last(), n)
    }
}

/// The total weight is nonnegative when the cap is.
proof fn lemma_dsum_nonneg(s: Seq<usize>, n: int)
    requires
        n >= 0,
    ensures
        dsum(s, n) >= 0,
    decreases s.len(),
{
    if s.len() > 0 {
        lemma_dsum_nonneg(s.drop_last(), n);
    }
}

/// Updating one slot changes the total weight by that slot's difference.
proof fn lemma_dsum_update(s: Seq<usize>, n: int, i: int, c: usize)
    requires
        0 <= i < s.len(),
    ensures
        dsum(s.update(i, c), n) == dsum(s, n) - capped(s[i], n) + capped(c, n),
    decreases s.len(),
{
    let t = s.update(i, c);
    if i == s.len() - 1 {
        assert(t.drop_last() =~= s.drop_last());
    } else {
        assert(t.drop_last() =~= s.drop_last().update(i, c));
        lemma_dsum_update(s.drop_last(), n, i, c);
    }
}

/// The target of the `i`-th out-edge of `v` is either already within one
/// step of `v`'s distance, or `v`'s distance is too large for the bound to
/// matter.
pub open spec fn nbr_relaxed<G: Incidence>(g: &G, dm: Seq<usize>, v: int, i: int) -> bool {
    let t = g.edge_target(g.spec_out_edge(v, i));
    &&& 0 <= t < dm.len()
    &&& (dm[v] as int + 1 >= dm.len() || dm[t] as int <= dm[v] as int + 1)
}

/// The distance map is relaxed everywhere: no assigned vertex has a
/// neighbor more than one step further, unless the step would leave the
/// vertex count behind.
pub open spec fn dist_closed<G: Incidence>(g: &G, dm: Seq<usize>) -> bool {
    forall|v: int, i: int|
        0 <= v < g.spec_n() && (dm[v] as int) < dm.len() && 0 <= i < g.spec_out_degree(v)
            ==> #[trigger] nbr_relaxed(g, dm, v, i)
}

/// Along any walk from the start of a relaxed map, the assigned distance
/// grows by at most one per edge: the walk's end is assigned at most the
/// walk's length.
proof fn lemma_closed_walk_bound<G: Incidence>(g: &G, dm: Seq<usize>, p: Seq<int>)
    requires
        g.wf(),
        dm.len() == g.spec_n(),
        dist_closed(g, dm),
        p.len() >= 1,
        p.len() <= g.spec_n(),
        forall|k: int| 0 <= k < p.len() ==> 0 <= #[trigger] p[k] < g.spec_n(),
        forall|k: int| 0 <= k < p.len() - 1 ==> adjacent(g, #[trigger] p[k], p[k + 1]),
        dm[p[0]] == 0,
    ensures
        (dm[p[p.len() - 1]] as int) <= p.len() - 1,
    decreases p.len(),
{
    if p.len() > 1 {
        let q = p.drop_last();
        assert forall|k: int| 0 <= k < q.len() - 1 implies adjacent(
            g,
            #[trigger] q[k],
            q[k + 1],
        ) by {
            assert(adjacent(g, p[k], p[k + 1]));
        }
        lemma_closed_walk_bound(g, dm, q);
        let v = p[p.len() - 2];
        let x = p[p.len() - 1];
        assert((dm[v] as int) <= p.len() - 2);
        assert(adjacent(g, v, x));
        let i = choose|i: int|
            0 <= i < g.spec_out_degree(v) && g.edge_target(#[trigger] g.spec_out_edge(v, i)) == x;
        assert(nbr_relaxed(g, dm, v, i));
    }
}

/// The unweighted shortest distance from `start` to every vertex: the
/// returned map assigns a value below the vertex count exactly to the
/// vertices connected to `start`, each value is realized by a walk of
/// exactly that many edges, and no shorter walk exists.  Everything else
/// holds the unreached sentinel.
pub fn shortest_distances<G: Incidence>(g: &G, start: usize) -> (d: PropMap<usize>)
    requires
        g.wf(),
        start < g.spec_n(),
    ensures
        d@.len() == g.spec_n(),
        forall|v: int|
            0 <= v < g.spec_n() ==> (((#[trigger] d@[v]) as int) < g.spec_n() <==> connected_pair(
                g,
                start as int,
                v,
            )),
        forall|v: int|
            0 <= v < g.spec_n() ==> ((d@[v] as int) < g.spec_n() ==> #[trigger] has_walk_len(
                g,
                start as int,
                v,
                d@[v] as int,
            ) && forall|l: int|
                0 <= l && #[trigger] has_walk_len(g, start as int, v, l) ==> d@[v] as int <= l),
        forall|v: int|
            0 <= v < g.spec_n() && !((#[trigger] d@[v] as int) < g.spec_n()) ==> d@[v]
                == usize::MAX,
{
    let n = g.num_vertices();
    let mut d = PropMap::with_default(n, usize::MAX);
    let mut wl: Vec<usize> = Vec::new();
    proof {
        lemma_dsum_nonneg(d@, n as int);
        lemma_dsum_update(d@, n as int, start as int, 0);
        lemma_walk_refl(g, start as int);
    }
    d.set(start, 0);
    wl.push(start);
    proof {
        assert((wl@[0]) as int == start as int);
        assert(in_list(wl@, start as int));
    }
    while wl.len() > 0
        invariant
            g.wf(),
            n == g.spec_n(),
            d@.len() == n,
            d@[start as int] == 0,
            n >= 1,
            forall|v: int|
                0 <= v < n ==> ((#[trigger] d@[v] as int) < n || d@[v] == usize::MAX),
            forall|v: int|
                0 <= v < n ==> ((d@[v] as int) < n ==> #[trigger] has_walk_len(
                    g,
                    start as int,
                    v,
                    d@[v] as int,
                )),
            forall|k: int| 0 <= k < wl@.len() ==> (#[trigger] wl@[k]) < n,
            forall|v: int, i: int|
                0 <= v < n && (d@[v] as int) < n && !in_list(wl@, v) && 0 <= i
                    < g.spec_out_degree(v) ==> #[trigger] nbr_relaxed(g, d@, v, i),
        decreases dsum(d@, n as int) + wl@.len(),
    {
        let ghost m0 = dsum(d@, n as int) + wl@.len();
        let ghost wl0 = wl@;
        let u = wl.pop().unwrap();
        proof {
            assert(wl0 =~= wl@.push(u));
            assert forall|v: int| in_list(wl0, v) implies in_list(wl@, v) || v == u as int by {
                let k = choose|k: int| 0 <= k < wl0.len() && (#[trigger] wl0[k]) as int == v;
                if k < wl@.len() {
                    assert((wl@[k]) as int == v);
                }
            }
            assert forall|v: int| in_list(wl@, v) implies in_list(wl0, v) by {
                let k = choose|k: int| 0 <= k < wl@.len() && (#[trigger] wl@[k]) as int == v;
                assert((wl0[k]) as int == v);
            }
        }
        let du = d.get(u);
        if du < n {
            let nd = du + 1;
            let deg = g.out_degree(u);
            let mut i: usize = 0;
            while i < deg
                invariant
                    g.wf(),
                    n == g.spec_n(),
                    d@.len() == n,
                    d@[start as int] == 0,
                    u < n,
                    du < n,
                    nd == du + 1,
                    d@[u as int] == du,
                    i <= deg,
                    deg == g.spec_out_degree(u as int),
                    has_walk_len(g, start as int, u as int, du as int),
                    forall|v: int|
                        0 <= v < n ==> ((#[trigger] d@[v] as int) < n || d@[v] == usize::MAX),
                    forall|v: int|
                        0 <= v < n ==> ((d@[v] as int) < n ==> #[trigger] has_walk_len(
                            g,
                            start as int,
                            v,
                            d@[v] as int,
                        )),
                    forall|k: int| 0 <= k < wl@.len() ==> (#[trigger] wl@[k]) < n,
                    forall|v: int, j: int|
                        0 <= v < n && (d@[v] as int) < n && v != u as int && !in_list(wl@, v) && 0
                            <= j < g.spec_out_degree(v) ==> #[trigger] nbr_relaxed(g, d@, v, j),
                    forall|j: int| 0 <= j < i ==> #[trigger] nbr_relaxed(g, d@, u as int, j),
                    dsum(d@, n as int) + wl@.len() <= m0 - 1,
                decreases deg - i,
            {
                let e = g.out_edge_at(u, i);
                proof {
                    g.lemma_out_edge_wf(u as int, i as int);
                }
                let w = g.target(e);
                if nd < n && d.get(w) > nd {
                    proof {
                        lemma_dsum_update(d@, n as int, w as int, nd);
                        assert(adjacent(g, u as int, w as int));
                        lemma_walk_extend(g, start as int, u as int, w as int, du as int);
                    }
                    let ghost d0 = d@;
                    let ghost wl1 = wl@;
                    d.set(w, nd);
                    wl.push(w);
                    proof {
                        assert forall|v: int| in_list(wl1, v) implies in_list(wl@, v) by {
                            let k = choose|k: int|
                                0 <= k < wl1.len() && (#[trigger] wl1[k]) as int == v;
                            assert((wl@[k]) as int == v);
                        }
                        assert((wl@[wl@.len() - 1]) as int == w as int);
                        assert(in_list(wl@, w as int));
                        assert forall|v: int, j: int|
                            0 <= v < n && (d@[v] as int) < n && v != u as int && !in_list(wl@, v)
                                && 0 <= j < g.spec_out_degree(v) implies #[trigger] nbr_relaxed(
                            g,
                            d@,
                            v,
                            j,
                        ) by {
                            assert(v != w as int);
                            assert((d0[v] as int) < n);
                            assert(!in_list(wl1, v));
                            assert(nbr_relaxed(g, d0, v, j));
                        }
                        assert forall|j: int| 0 <= j <= i implies #[trigger] nbr_relaxed(
                            g,
                            d@,
                            u as int,
                            j,
                        ) by {
                            if j < i {
                                assert(nbr_relaxed(g, d0, u as int, j));
                            }
                        }
                    }
                } else {
                    proof {
                        assert(nbr_relaxed(g, d@, u as int, i as int));
                    }
                }
                i = i + 1;
            }
            proof {
                lemma_dsum_nonneg(d@, n as int);
                assert forall|v: int, j: int|
                    0 <= v < n && (d@[v] as int) < n && !in_list(wl@, v) && 0 <= j
                        < g.spec_out_degree(v) implies #[trigger] nbr_relaxed(g, d@, v, j) by {
                    if v == u as int {
                        assert(nbr_relaxed(g, d@, u as int, j));
                    }
                }
            }
        }
        proof {
            lemma_dsum_nonneg(d@, n as int);
        }
    }
    proof {
        assert(dist_closed(g, d@));
        assert forall|v: int|
            0 <= v < g.spec_n() && connected_pair(g, start as int, v) implies ((#[trigger] d@[v])
            as int) < g.spec_n() by {
            lemma_connected_short_walk(g, start as int, v);
            let steps = choose|steps: int|
                0 <= steps < g.spec_n() && #[trigger] has_walk_len(g, start as int, v, steps);
            let p = choose|p: Seq<int>|
                is_walk(g, p, start as int, v) && p.len() == steps + 1;
            lemma_closed_walk_bound(g, d@, p);
        }
        assert forall|v: int|
            0 <= v < g.spec_n() && ((#[trigger] d@[v]) as int) < g.spec_n() implies connected_pair(
            g,
            start as int,
            v,
        ) by {
            assert(has_walk_len(g, start as int, v, d@[v] as int));
            let p = choose|p: Seq<int>|
                is_walk(g, p, start as int, v) && p.len() == d@[v] as int + 1;
            assert(is_walk(g, p, start as int, v));
        }
        assert forall|v: int, l: int|
            0 <= v < g.spec_n() && (d@[v] as int) < g.spec_n() && 0 <= l && #[trigger] has_walk_len(
                g,
                start as int,
                v,
                l,
            ) implies d@[v] as int <= l by {
            if l < g.spec_n() {
                let p = choose|p: Seq<int>|
                    is_walk(g, p, start as int, v) && p.len() == l + 1;
                lemma_closed_walk_bound(g, d@, p);
            }
        }
    }
    d
}

/// Distance queries, offered by every graph with the incidence capability.
pub trait Distances: Incidence {
    /// The diameter: the largest shortest-walk distance between any two
    /// connected vertices.  Every connected pair is joined by a walk of at
    /// most `r` edges, and some pair's shortest walk has exactly `r` edges;
    /// the empty graph has diameter zero.
    fn diameter(&self) -> (r: usize)
        requires
            self.wf(),
        ensures
            self.spec_n() == 0 ==> r == 0,
            self.spec_n() > 0 ==> r < self.spec_n(),
            forall|u: int, v: int|
                0 <= u < self.spec_n() && 0 <= v < self.spec_n() && #[trigger] connected_pair(
                    self,
                    u,
                    v,
                ) ==> exists|l: int| 0 <= l <= r && #[trigger] has_walk_len(self, u, v, l),
            self.spec_n() > 0 ==> exists|u: int, v: int|
                0 <= u < self.spec_n() && 0 <= v < self.spec_n() && #[trigger] has_walk_len(
                    self,
                    u,
                    v,
                    r as int,
                ) && (forall|l: int| 0 <= l < r ==> !has_walk_len(self, u, v, l)),
    ;
}

impl<G: Incidence> Distances for G {
    fn diameter(&self) -> (r: usize) {
        let n = self.num_vertices();
        if n == 0 {
            return 0;
        }
        let mut best: usize = 0;
        let ghost mut bu: int = 0;
        let ghost mut bv: int = 0;
        proof {
            lemma_walk_refl(self, 0);
        }
        let mut root: usize = 0;
        while root < n
            invariant
                self.wf(),
                n == self.spec_n(),
                n >= 1,
                best < n,
                0 <= bu < n,
                0 <= bv < n,
                has_walk_len(self, bu, bv, best as int),
                forall|l: int| 0 <= l < best ==> !has_walk_len(self, bu, bv, l),
                forall|u: int, v: int|
                    0 <= u < root && 0 <= v < n && #[trigger] connected_pair(self, u, v)
                        ==> exists|l: int| 0 <= l <= best && #[trigger] has_walk_len(self, u, v, l),
            decreases n - root,
        {
            let dmap = shortest_distances(self, root);
            let ghost best0 = best as int;
            let mut w: usize = 0;
            while w < n
                invariant
                    self.wf(),
                    n == self.spec_n(),
                    n >= 1,
                    root < n,
                    w <= n,
                    best < n,
                    best0 <= best,
                    0 <= bu < n,
                    0 <= bv < n,
                    dmap@.len() == n,
                    has_walk_len(self, bu, bv, best as int),
                    forall|l: int| 0 <= l < best ==> !has_walk_len(self, bu, bv, l),
                    forall|v: int|
                        0 <= v < n ==> (((#[trigger] dmap@[v]) as int) < n <==> connected_pair(
                            self,
                            root as int,
                            v,
                        )),
                    forall|v: int|
                        0 <= v < n ==> ((dmap@[v] as int) < n ==> #[trigger] has_walk_len(
                            self,
                            root as int,
                            v,
                            dmap@[v] as int,
                        ) && forall|l: int|
                            0 <= l && #[trigger] has_walk_len(self, root as int, v, l) ==> dmap@[v]
                                as int <= l),
                    forall|v: int|
                        0 <= v < w && ((#[trigger] dmap@[v]) as int) < n ==> dmap@[v] <= best,
                decreases n - w,
            {
                let dv = dmap.get(w);
                if dv < n && dv > best {
                    best = dv;
                    proof {
                        bu = root as int;
                        bv = w as int;
                        assert(has_walk_len(self, bu, bv, best as int));
                        assert forall|l: int| 0 <= l < best implies !has_walk_len(
                            self,
                            bu,
                            bv,
                            l,
                        ) by {
                            if has_walk_len(self, bu, bv, l) {
                                assert(dmap@[bv] as int <= l);
                            }
                        }
                    }
                }
                w = w + 1;
            }
            proof {
                assert forall|u: int, v: int|
                    0 <= u < root + 1 && 0 <= v < n && #[trigger] connected_pair(self, u, v)
                        implies exists|l: int|
                    0 <= l <= best && #[trigger] has_walk_len(self, u, v, l) by {
                    if u == root as int {
                        assert((dmap@[v] as int) < n);
                        assert(dmap@[v] <= best);
                        assert(has_walk_len(self, root as int, v, dmap@[v] as int));
                        assert(0 <= dmap@[v] as int <= best && has_walk_len(
                            self,
                            u,
                            v,
                            dmap@[v] as int,
                        ));
                    } else {
                        let l = choose|l: int|
                            0 <= l <= best0 && #[trigger] has_walk_len(self, u, v, l);
                        assert(0 <= l <= best && has_walk_len(self, u, v, l));
                    }
                }
            }
            root = root + 1;
        }
        best
    }
}

} // verus!
