//! Kruskal's minimum spanning forest: walk the edges in ascending weight
//! order (ties broken by edge identity, which is encounter order) and accept
//! every edge that does not close a cycle among the edges already accepted,
//! until a single component is left.  A visitor may veto edges for
//! generalized uses; the default accepts everything the forest constraint
//! allows.

use vstd::prelude::*;
use crate::algs::lemma_conn_bridge;
use crate::algs::mark_component;
use crate::algs::pair_conn;
use crate::graphs::Incidence;
use crate::props::PropMap;
use crate::static_graph::StaticEdge;
use crate::static_graph::StaticGraph;
use crate::static_graph::StaticGraphBuilder;

verus! {

/// A visitor's verdict on one candidate edge.
#[derive(Clone, Copy, PartialEq, Eq, Structural, Debug)]
pub enum Accept {
    /// Take the edge.
    Yes,
    /// Leave the edge out.
    No,
}

/// Consulted for every candidate edge whose endpoints the accepted forest
/// does not yet connect.
pub trait Visitor<G: Incidence>: Sized {
    /// The visitor's own invariant against the graph it filters for.
    spec fn inv(&self, g: &G) -> bool;

    /// Whether this visitor is known to approve every candidate.  When it
    /// holds, `visit` answers `Yes` and keeps it holding, so the greedy
    /// pass's result is pinned exactly.
    spec fn always_accepts(&self) -> bool;

    /// The verdict on `e`.
    fn visit(&mut self, g: &G, e: G::Edge) -> (a: Accept)
        requires
            g.wf(),
            old(self).inv(g),
            g.edge_wf(e),
        ensures
            final(self).inv(g),
            old(self).always_accepts() ==> a == Accept::Yes && final(self).always_accepts(),
    ;
}

/// The filter that approves every candidate: with it the greedy pass is
/// the plain minimum spanning forest.
pub struct AcceptAll;

impl<G: Incidence> Visitor<G> for AcceptAll {
    open spec fn inv(&self, g: &G) -> bool {
        true
    }

    open spec fn always_accepts(&self) -> bool {
        true
    }

    fn visit(&mut self, g: &G, e: G::Edge) -> (a: Accept) {
        Accept::Yes
    }
}

/// A filter that approves exactly the edges whose weight stays within a
/// cap: the greedy pass then grows the cheapest forest using light edges
/// only.
pub struct WeightBelow {
    /// The weight of each edge, by edge index.
    pub weight: PropMap<u64>,
    /// The largest weight still accepted.
    pub cap: u64,
}

impl Visitor<StaticGraph> for WeightBelow {
    open spec fn inv(&self, g: &StaticGraph) -> bool {
        self.weight@.len() == g.spec_num_edges()
    }

    open spec fn always_accepts(&self) -> bool {
        false
    }

    /// Approve exactly the edges within the cap.
    fn visit(&mut self, g: &StaticGraph, e: StaticEdge) -> (a: Accept)
        ensures
            a == (if old(self).weight@[e.0 as int / 2] <= old(self).cap {
                Accept::Yes
            } else {
                Accept::No
            }),
            *final(self) == *old(self),
    {
        if self.weight.get(e.to_index()) <= self.cap {
            Accept::Yes
        } else {
            Accept::No
        }
    }
}

/// The endpoint pair an edge stands for.
pub open spec fn edge_pair_of<G: Incidence>(g: &G, e: G::Edge) -> (int, int) {
    (g.edge_source(e), g.edge_target(e))
}

/// The endpoint pairs of a sequence of edges, in order.
pub open spec fn pairs_of<G: Incidence>(g: &G, es: Seq<G::Edge>) -> Seq<(int, int)> {
    Seq::new(es.len(), |k: int| edge_pair_of(g, es[k]))
}

/// The pairs form a forest: no pair connects two vertices that the pairs
/// before it already connect.
pub open spec fn is_forest(acc: Seq<(int, int)>) -> bool {
    forall|k: int| 0 <= k < acc.len() ==> !pair_conn(acc.take(k), (#[trigger] acc[k]).0, acc[k].1)
}

/// A static graph is acyclic exactly when its own edge list is a forest:
/// the two notions are one.
pub proof fn lemma_acyclic_is_forest(g: &StaticGraph)
    ensures
        crate::algs::spec_acyclic(g) <==> is_forest(g.edge_pairs()),
{
}

/// What the greedy pass accepts from the candidate pairs, in order: every
/// pair whose endpoints are not yet connected, until `n - 1` pairs are
/// accepted and a single component must remain.
pub open spec fn kruskal_accepted(n: int, cand: Seq<(int, int)>) -> Seq<(int, int)>
    decreases cand.len(),
{
    if cand.len() == 0 {
        Seq::<(int, int)>::empty()
    } else {
        let pre = kruskal_accepted(n, cand.drop_last());
        let c = cand.last();
        if pre.len() != n - 1 && !pair_conn(pre, c.0, c.1) {
            pre.push(c)
        } else {
            pre
        }
    }
}

/// One step of the greedy pass: whether the candidate joins two components
/// of the accepted forest, and the bookkeeping of accepting it.  Shared by
/// the filtered and the unfiltered pass.
fn greedy_joins<G: Incidence>(
    g: &G,
    acc: &StaticGraphBuilder,
    u: usize,
    v: usize,
) -> (joins: bool)
    requires
        g.wf(),
        acc.g.inv(),
        acc.spec_n() == g.spec_n(),
        u < g.spec_n(),
        v < g.spec_n(),
    ensures
        joins == !pair_conn(acc.edge_pairs(), u as int, v as int),
{
    let n = g.num_vertices();
    let mut seen = PropMap::with_default(n, false);
    mark_component(&acc.g, u, &mut seen);
    proof {
        lemma_conn_bridge(&acc.g, u as int, v as int);
    }
    !seen.get(v)
}

/// The greedy pass with a filtering visitor: the accepted edges always form
/// a forest drawn from the candidates.
fn kruskal_greedy_vis<G: Incidence, V: Visitor<G>>(
    g: &G,
    edges: &Vec<G::Edge>,
    visitor: &mut V,
) -> (r: Vec<G::Edge>)
    requires
        g.wf(),
        old(visitor).inv(g),
        forall|k: int| 0 <= k < edges@.len() ==> g.edge_wf(#[trigger] edges@[k]),
        2 * edges@.len() <= usize::MAX - 1,
        g.spec_n() <= u32::MAX,
    ensures
        final(visitor).inv(g),
        is_forest(pairs_of(g, r@)),
        r@.len() <= edges@.len(),
        forall|k: int| 0 <= k < r@.len() ==> edges@.contains(#[trigger] r@[k]),
        old(visitor).always_accepts() ==> final(visitor).always_accepts() && pairs_of(g, r@)
            =~= kruskal_accepted(g.spec_n(), pairs_of(g, edges@)),
{
    let n = g.num_vertices();
    let mut acc = StaticGraphBuilder::new(n, edges.len());
    let mut r: Vec<G::Edge> = Vec::new();
    let ghost aa = old(visitor).always_accepts();
    let ghost cand = pairs_of(g, edges@);
    let mut j: usize = 0;
    while j < edges.len()
        invariant
            g.wf(),
            visitor.inv(g),
            forall|k: int| 0 <= k < edges@.len() ==> g.edge_wf(#[trigger] edges@[k]),
            2 * edges@.len() <= usize::MAX - 1,
            n == g.spec_n(),
            n <= u32::MAX,
            acc.spec_n() == n,
            acc.g.inv(),
            acc.g.ends@.len() == 2 * r@.len(),
            r@.len() <= j <= edges@.len(),
            cand == pairs_of(g, edges@),
            aa == old(visitor).always_accepts(),
            acc.edge_pairs() =~= pairs_of(g, r@),
            is_forest(pairs_of(g, r@)),
            forall|k: int| 0 <= k < r@.len() ==> edges@.contains(#[trigger] r@[k]),
            aa ==> visitor.always_accepts() && pairs_of(g, r@) =~= kruskal_accepted(
                g.spec_n(),
                cand.take(j as int),
            ),
        decreases edges@.len() - j,
    {
        let e = edges[j];
        let u = g.source(e);
        let v = g.target(e);
        proof {
            assert(cand.take(j as int + 1).drop_last() =~= cand.take(j as int));
            assert(cand.take(j as int + 1).last() == edge_pair_of(g, edges@[j as int]));
        }
        if r.len() + 1 != n && greedy_joins(g, &acc, u, v) {
            if visitor.visit(g, e) == Accept::Yes {
                let ghost r0 = r@;
                acc.add_edge(u, v);
                r.push(e);
                proof {
                    lemma_forest_push(g, r0, e, u as int, v as int);
                    assert(edges@.contains(edges@[j as int]));
                }
            }
        }
        j = j + 1;
    }
    proof {
        assert(cand.take(edges@.len() as int) =~= cand);
    }
    r
}

/// Pushing an edge whose endpoints the forest does not yet connect keeps
/// the forest a forest.
pub proof fn lemma_forest_push<G: Incidence>(g: &G, r0: Seq<G::Edge>, e: G::Edge, u: int, v: int)
    requires
        is_forest(pairs_of(g, r0)),
        !pair_conn(pairs_of(g, r0), u, v),
        edge_pair_of(g, e) == (u, v),
    ensures
        is_forest(pairs_of(g, r0.push(e))),
        pairs_of(g, r0.push(e)) =~= pairs_of(g, r0).push(edge_pair_of(g, e)),
{
    assert(pairs_of(g, r0.push(e)) =~= pairs_of(g, r0).push(edge_pair_of(g, e)));
    let ps = pairs_of(g, r0.push(e));
    assert forall|k: int| 0 <= k < ps.len() implies !pair_conn(
        ps.take(k),
        (#[trigger] ps[k]).0,
        ps[k].1,
    ) by {
        if k < ps.len() - 1 {
            assert(ps.take(k) =~= pairs_of(g, r0).take(k));
            assert(ps[k] == pairs_of(g, r0)[k]);
        } else {
            assert(ps.take(k) =~= pairs_of(g, r0));
        }
    }
}

/// The unfiltered greedy pass: the accepted pairs are pinned exactly.
fn kruskal_greedy_all<G: Incidence>(g: &G, edges: &Vec<G::Edge>) -> (r: Vec<G::Edge>)
    requires
        g.wf(),
        forall|k: int| 0 <= k < edges@.len() ==> g.edge_wf(#[trigger] edges@[k]),
        2 * edges@.len() <= usize::MAX - 1,
        g.spec_n() <= u32::MAX,
    ensures
        is_forest(pairs_of(g, r@)),
        r@.len() <= edges@.len(),
        forall|k: int| 0 <= k < r@.len() ==> edges@.contains(#[trigger] r@[k]),
        pairs_of(g, r@) =~= kruskal_accepted(g.spec_n(), pairs_of(g, edges@)),
{
    let n = g.num_vertices();
    let mut acc = StaticGraphBuilder::new(n, edges.len());
    let mut r: Vec<G::Edge> = Vec::new();
    let ghost cand = pairs_of(g, edges@);
    let mut j: usize = 0;
    while j < edges.len()
        invariant
            g.wf(),
            forall|k: int| 0 <= k < edges@.len() ==> g.edge_wf(#[trigger] edges@[k]),
            2 * edges@.len() <= usize::MAX - 1,
            n == g.spec_n(),
            n <= u32::MAX,
            acc.spec_n() == n,
            acc.g.inv(),
            acc.g.ends@.len() == 2 * r@.len(),
            r@.len() <= j <= edges@.len(),
            cand == pairs_of(g, edges@),
            acc.edge_pairs() =~= pairs_of(g, r@),
            is_forest(pairs_of(g, r@)),
            forall|k: int| 0 <= k < r@.len() ==> edges@.contains(#[trigger] r@[k]),
            pairs_of(g, r@) =~= kruskal_accepted(g.spec_n(), cand.take(j as int)),
        decreases edges@.len() - j,
    {
        let e = edges[j];
        let u = g.source(e);
        let v = g.target(e);
        proof {
            assert(cand.take(j as int + 1).drop_last() =~= cand.take(j as int));
            assert(cand.take(j as int + 1).last() == edge_pair_of(g, edges@[j as int]));
        }
        if r.len() + 1 != n && greedy_joins(g, &acc, u, v) {
            let ghost r0 = r@;
            acc.add_edge(u, v);
            r.push(e);
            proof {
                lemma_forest_push(g, r0, e, u as int, v as int);
                assert(edges@.contains(edges@[j as int]));
            }
        }
        j = j + 1;
    }
    proof {
        assert(cand.take(edges@.len() as int) =~= cand);
    }
    r
}

/// Kruskal's greedy pass, offered by every graph with the incidence
/// capability.
pub trait Kruskal: Incidence {
    /// Walk the candidate edges in the given order; accept each edge that
    /// joins two components of the accepted forest and that the visitor
    /// approves, until a single component is left.  The result is always a
    /// forest drawn from the candidates.
    fn kruskal_edges<V: Visitor<Self>>(&self, edges: &Vec<Self::Edge>, visitor: &mut V) -> (r: Vec<
        Self::Edge,
    >)
        requires
            self.wf(),
            old(visitor).inv(self),
            forall|k: int| 0 <= k < edges@.len() ==> self.edge_wf(#[trigger] edges@[k]),
            2 * edges@.len() <= usize::MAX - 1,
            self.spec_n() <= u32::MAX,
        ensures
            final(visitor).inv(self),
            is_forest(pairs_of(self, r@)),
            r@.len() <= edges@.len(),
            forall|k: int| 0 <= k < r@.len() ==> edges@.contains(#[trigger] r@[k]),
            old(visitor).always_accepts() ==> final(visitor).always_accepts() && pairs_of(
                self,
                r@,
            ) =~= kruskal_accepted(self.spec_n(), pairs_of(self, edges@)),
    ;
}

impl<G: Incidence> Kruskal for G {
    fn kruskal_edges<V: Visitor<G>>(&self, edges: &Vec<G::Edge>, visitor: &mut V) -> (r: Vec<
        G::Edge,
    >) {
        kruskal_greedy_vis(self, edges, visitor)
    }
}

/// The lexicographic sort key order of two edges: weight first, then edge
/// identity.  Identities are unique, so the order is total and strict.
pub open spec fn key_lt(w: Seq<u64>, a: StaticEdge, b: StaticEdge) -> bool {
    w[a.0 as int / 2] < w[b.0 as int / 2] || (w[a.0 as int / 2] == w[b.0 as int / 2] && a.0 as int
        / 2 < b.0 as int / 2)
}

/// Sort edge views by weight, ties broken by edge identity.  The result is
/// strictly ordered by that key and holds exactly the input edges.
pub fn sort_edges_by_weight(weight: &PropMap<u64>, edges: &Vec<StaticEdge>) -> (r: Vec<StaticEdge>)
    requires
        forall|k: int|
            0 <= k < edges@.len() ==> (#[trigger] edges@[k]).0 as int / 2 < weight@.len(),
        forall|k: int, l: int|
            0 <= k < l < edges@.len() ==> (#[trigger] edges@[k]).0 as int / 2 != (
            #[trigger] edges@[l]).0 as int / 2,
    ensures
        r@.len() == edges@.len(),
        forall|k: int| 0 <= k < r@.len() ==> (#[trigger] r@[k]).0 as int / 2 < weight@.len(),
        forall|k: int, l: int| 0 <= k < l < r@.len() ==> key_lt(weight@, r@[k], r@[l]),
        forall|e: StaticEdge| r@.contains(e) <==> edges@.contains(e),
{
    let mut out: Vec<StaticEdge> = Vec::new();
    let mut i: usize = 0;
    while i < edges.len()
        invariant
            forall|k: int|
                0 <= k < edges@.len() ==> (#[trigger] edges@[k]).0 as int / 2 < weight@.len(),
            forall|k: int, l: int|
                0 <= k < l < edges@.len() ==> (#[trigger] edges@[k]).0 as int / 2 != (
                #[trigger] edges@[l]).0 as int / 2,
            i <= edges@.len(),
            out@.len() == i,
            forall|k: int| 0 <= k < out@.len() ==> (#[trigger] out@[k]).0 as int / 2 < weight@.len(),
            forall|k: int, l: int| 0 <= k < l < out@.len() ==> key_lt(weight@, out@[k], out@[l]),
            forall|e: StaticEdge| out@.contains(e) <==> edges@.take(i as int).contains(e),
        decreases edges@.len() - i,
    {
        let x = edges[i];
        let xw = weight.get(x.0 / 2);
        let xid = x.0 / 2;
        let ghost out0 = out@;
        let mut p: usize = 0;
        while p < out.len()
            invariant
                out@ == out0,
                xw == weight@[x.0 as int / 2],
                xid == x.0 as int / 2,
                x.0 as int / 2 < weight@.len(),
                forall|k: int|
                    0 <= k < out@.len() ==> (#[trigger] out@[k]).0 as int / 2 < weight@.len(),
                p <= out@.len(),
                forall|k: int| 0 <= k < p ==> key_lt(weight@, #[trigger] out@[k], x),
            ensures
                out@ == out0,
                p <= out@.len(),
                forall|k: int| 0 <= k < p ==> key_lt(weight@, #[trigger] out@[k], x),
                p < out@.len() ==> !key_lt(weight@, out@[p as int], x),
            decreases out@.len() - p,
        {
            let c = out[p];
            let cw = weight.get(c.0 / 2);
            if cw < xw || (cw == xw && c.0 / 2 < xid) {
                p = p + 1;
            } else {
                break;
            }
        }
        let ghost pp = p as int;
        out.insert(p, x);
        proof {
            assert(out@ =~= out0.take(pp) + seq![x] + out0.skip(pp));
            assert forall|q: int| 0 <= q < out@.len() implies out@[q] == (if q < pp {
                out0[q]
            } else if q == pp {
                x
            } else {
                out0[q - 1]
            }) by {
            }
            assert forall|q: int| 0 <= q < out0.len() implies (#[trigger] out0[q]).0 as int / 2
                != x.0 as int / 2 by {
                assert(out0.contains(out0[q]));
                assert(edges@.take(i as int).contains(out0[q]));
                let k2 = choose|k2: int|
                    0 <= k2 < edges@.take(i as int).len() && #[trigger] edges@.take(i as int)[k2]
                        == out0[q];
                assert(edges@[k2] == out0[q] && edges@[i as int] == x && k2 < i as int);
            }
            assert forall|k: int, l: int|
                0 <= k < l < out@.len() implies key_lt(weight@, out@[k], out@[l]) by {
                if k == pp && l > pp {
                    assert(!key_lt(weight@, out0[pp], x));
                    assert((out0[pp]).0 as int / 2 != x.0 as int / 2);
                    assert(key_lt(weight@, x, out0[pp]));
                    if pp < l - 1 {
                        assert(key_lt(weight@, out0[pp], out0[l - 1]));
                    }
                } else if k < pp && l == pp {
                    assert(key_lt(weight@, out0[k], x));
                } else if k < pp && l > pp {
                    if k < l - 1 {
                        assert(key_lt(weight@, out0[k], out0[l - 1]));
                    }
                } else if k > pp {
                    assert(key_lt(weight@, out0[k - 1], out0[l - 1]));
                } else {
                    assert(key_lt(weight@, out0[k], out0[l]));
                }
            }
            assert forall|e: StaticEdge| out@.contains(e) implies edges@.take(
                i as int + 1,
            ).contains(e) by {
                let k = choose|k: int| 0 <= k < out@.len() && out@[k] == e;
                if k == pp {
                    assert(edges@.take(i as int + 1)[i as int] == e);
                } else {
                    let k0 = if k < pp {
                        k
                    } else {
                        k - 1
                    };
                    assert(out0[k0] == e);
                    assert(out0.contains(e));
                    assert(edges@.take(i as int).contains(e));
                    let k2 = choose|k2: int|
                        0 <= k2 < edges@.take(i as int).len() && #[trigger] edges@.take(
                            i as int,
                        )[k2] == e;
                    assert(edges@.take(i as int + 1)[k2] == e);
                }
            }
            assert forall|e: StaticEdge| edges@.take(i as int + 1).contains(e) implies out@.contains(
                e,
            ) by {
                let k = choose|k: int|
                    0 <= k < edges@.take(i as int + 1).len() && #[trigger] edges@.take(
                        i as int + 1,
                    )[k] == e;
                if k < i as int {
                    assert(edges@.take(i as int)[k] == e);
                    assert(edges@.take(i as int).contains(e));
                    assert(out0.contains(e));
                    let k2 = choose|k2: int| 0 <= k2 < out0.len() && out0[k2] == e;
                    if k2 < pp {
                        assert(out@[k2] == e);
                    } else {
                        assert(out@[k2 + 1] == e);
                    }
                } else {
                    assert(out@[pp] == e);
                }
            }
        }
        i = i + 1;
    }
    proof {
        assert(edges@.take(edges@.len() as int) =~= edges@);
    }
    out
}

impl StaticGraph {
    /// The greedy pass in ascending weight order, filtered by a visitor:
    /// the accepted edges always form a forest.
    pub fn kruskal<V: Visitor<StaticGraph>>(&self, weight: &PropMap<u64>, visitor: &mut V) -> (r:
        Vec<StaticEdge>)
        requires
            self.inv(),
            old(visitor).inv(self),
            weight@.len() == self.spec_num_edges(),
            self.spec_n() <= u32::MAX,
        ensures
            final(visitor).inv(self),
            is_forest(pairs_of(self, r@)),
            forall|k: int|
                0 <= k < r@.len() ==> ((#[trigger] r@[k]).0 as int) % 2 == 1 && ((r@[k]).0
                    as int) < 2 * self.spec_num_edges(),
            old(visitor).always_accepts() ==> exists|es: Seq<StaticEdge>|
                {
                    &&& es.len() == self.spec_num_edges()
                    &&& (forall|k: int, l: int|
                        0 <= k < l < es.len() ==> key_lt(weight@, #[trigger] es[k], #[trigger] es[l]))
                    &&& (forall|e: StaticEdge|
                        #[trigger] es.contains(e) <==> ((e.0 as int) % 2 == 1 && (e.0 as int) < 2
                            * self.spec_num_edges()))
                    &&& pairs_of(self, r@) =~= kruskal_accepted(self.spec_n(), pairs_of(self, es))
                },
    {
        let all = self.edges();
        proof {
            self.lemma_edges_wf(all@);
        }
        let sorted = sort_edges_by_weight(weight, &all);
        proof {
            self.lemma_edges_wf_contained(all@, sorted@);
        }
        let r = kruskal_greedy_vis(self, &sorted, visitor);
        proof {
            let m = self.spec_num_edges();
            assert forall|e: StaticEdge| #[trigger] sorted@.contains(e) implies ((e.0 as int) % 2
                == 1 && (e.0 as int) < 2 * m) by {
                assert(all@.contains(e));
                let j = choose|j: int| 0 <= j < all@.len() && all@[j] == e;
            }
            assert forall|e: StaticEdge| ((e.0 as int) % 2 == 1 && (e.0 as int) < 2 * m)
                implies #[trigger] sorted@.contains(e) by {
                let j = ((e.0 as int) - 1) / 2;
                assert(e.0 as int == 2 * j + 1);
                assert(all@[j] == e);
                assert(all@.contains(e));
            }
            assert forall|k: int|
                0 <= k < r@.len() implies ((#[trigger] r@[k]).0 as int) % 2 == 1 && ((r@[k]).0
                as int) < 2 * m by {
                assert(sorted@.contains(r@[k]));
            }
        }
        r
    }

    /// The minimum spanning forest: the greedy pass in ascending weight
    /// order, ties broken by edge identity, accepting everything the forest
    /// constraint allows.  The result is exactly the greedy acceptance over
    /// the weight-sorted edge list, which that list's unique sort order
    /// pins down.
    pub fn kruskal_mst(&self, weight: &PropMap<u64>) -> (r: Vec<StaticEdge>)
        requires
            self.inv(),
            weight@.len() == self.spec_num_edges(),
            self.spec_n() <= u32::MAX,
        ensures
            is_forest(pairs_of(self, r@)),
            forall|k: int|
                0 <= k < r@.len() ==> ((#[trigger] r@[k]).0 as int) % 2 == 1 && ((r@[k]).0
                    as int) < 2 * self.spec_num_edges(),
            exists|es: Seq<StaticEdge>|
                {
                    &&& es.len() == self.spec_num_edges()
                    &&& (forall|k: int, l: int|
                        0 <= k < l < es.len() ==> key_lt(weight@, #[trigger] es[k], #[trigger] es[l]))
                    &&& (forall|e: StaticEdge|
                        #[trigger] es.contains(e) <==> ((e.0 as int) % 2 == 1 && (e.0 as int) < 2
                            * self.spec_num_edges()))
                    &&& pairs_of(self, r@) =~= kruskal_accepted(self.spec_n(), pairs_of(self, es))
                },
    {
        let all = self.edges();
        proof {
            self.lemma_edges_wf(all@);
        }
        let sorted = sort_edges_by_weight(weight, &all);
        proof {
            self.lemma_edges_wf_contained(all@, sorted@);
        }
        let r = kruskal_greedy_all(self, &sorted);
        proof {
            let m = self.spec_num_edges();
            assert forall|e: StaticEdge| #[trigger] sorted@.contains(e) implies ((e.0 as int) % 2
                == 1 && (e.0 as int) < 2 * m) by {
                assert(all@.contains(e));
                let j = choose|j: int| 0 <= j < all@.len() && all@[j] == e;
            }
            assert forall|e: StaticEdge| ((e.0 as int) % 2 == 1 && (e.0 as int) < 2 * m)
                implies #[trigger] sorted@.contains(e) by {
                let j = ((e.0 as int) - 1) / 2;
                assert(e.0 as int == 2 * j + 1);
                assert(all@[j] == e);
                assert(all@.contains(e));
            }
            assert forall|k: int|
                0 <= k < r@.len() implies ((#[trigger] r@[k]).0 as int) % 2 == 1 && ((r@[k]).0
                as int) < 2 * m by {
                assert(sorted@.contains(r@[k]));
            }
        }
        r
    }

    /// Every forward view of this graph is one of its edges, and their
    /// identities are distinct.
    proof fn lemma_edges_wf(&self, all: Seq<StaticEdge>)
        requires
            self.inv(),
            all.len() == self.spec_num_edges(),
            forall|j: int| 0 <= j < all.len() ==> (#[trigger] all[j]).0 == 2 * j + 1,
        ensures
            forall|k: int| 0 <= k < all.len() ==> (#[trigger] all[k]).0 as int / 2 < self.spec_num_edges(),
            forall|k: int, l: int|
                0 <= k < l < all.len() ==> (#[trigger] all[k]).0 as int / 2 != (#[trigger] all[l]).0
                    as int / 2,
            forall|k: int| 0 <= k < all.len() ==> self.edge_wf(#[trigger] all[k]),
    {
    }

    /// Edges drawn from a well-formed collection stay well-formed.
    proof fn lemma_edges_wf_contained(&self, all: Seq<StaticEdge>, picked: Seq<StaticEdge>)
        requires
            self.inv(),
            forall|k: int| 0 <= k < all.len() ==> self.edge_wf(#[trigger] all[k]),
            forall|e: StaticEdge| picked.contains(e) ==> all.contains(e),
        ensures
            forall|k: int| 0 <= k < picked.len() ==> self.edge_wf(#[trigger] picked[k]),
    {
        assert forall|k: int| 0 <= k < picked.len() implies self.edge_wf(#[trigger] picked[k]) by {
            assert(picked.contains(picked[k]));
            let j = choose|j: int| 0 <= j < all.len() && all[j] == picked[k];
        }
    }
}

} // verus!
