//! The visitor-driven breadth first traversal engine.  The engine walks any
//! graph offering the incidence capability, classifies every examined edge
//! by the color of its target (tree, back, cross-or-forward), and reports
//! each step to a visitor.  The moment any hook answers `Break`, the whole
//! traversal stops.  Colors only ever move forward, and a run that was not
//! broken drains its frontier completely.

use vstd::prelude::*;
use std::collections::VecDeque;
use crate::graphs::Incidence;
use crate::graphs::connected_pair;
use crate::props::Color;
use crate::props::PropMap;
use crate::props::color_le;
use crate::props::white_count;
use crate::props::lemma_white_count_bounds;
use crate::props::lemma_white_count_update;

verus! {

/// The control signal every visitor hook answers: keep traversing, or stop
/// the whole run.
#[derive(Clone, Copy, PartialEq, Eq, Structural, Debug)]
pub enum Control {
    /// Keep going.
    Continue,
    /// Stop the entire traversal, not only the current root.
    Break,
}

/// One step of a traversal, as reported to a visitor.
#[derive(Clone, Copy, PartialEq, Eq, Debug)]
pub enum TraverseEvent<E> {
    /// The traversal begins.
    Start,
    /// A white vertex becomes the root of a new traversal tree.
    DiscoverRootVertex(usize),
    /// A vertex turns from white to gray.
    DiscoverVertex(usize),
    /// An edge out of the frontier is examined, before classification.
    DiscoverEdge(E),
    /// The examined edge leads to a white vertex: it joins the tree.
    DiscoverTreeEdge(E),
    /// The examined edge leads to a gray vertex.
    DiscoverBackEdge(E),
    /// The examined edge leads to a black vertex.
    DiscoverCrossOrForwardEdge(E),
    /// The examined edge is done.
    FinishEdge(E),
    /// The subtree entered through this tree edge is fully finished.
    FinishTreeEdge(E),
    /// A vertex turns from gray to black.
    FinishVertex(usize),
    /// The current root's component is fully explored.
    FinishRootVertex(usize),
    /// The traversal is over.
    Finish,
}

/// What a traversal reports to: a set of hooks, each answering whether to
/// continue.  A visitor carries its own state; `inv` is whatever that state
/// must keep true of the graph, and every hook preserves it.
pub trait Visitor<G: Incidence>: Sized {
    /// The visitor's own invariant against the graph it observes.
    spec fn inv(&self, g: &G) -> bool;

    /// Whether this visitor is known never to stop a traversal.  When it
    /// holds, every hook answers `Continue` and keeps it holding, so the
    /// engine can promise a completed run.
    spec fn never_breaks(&self) -> bool;

    /// The events this visitor has been shown, in order.  Every hook
    /// appends exactly its own event, so the engine's contracts can pin
    /// the whole protocol: what fires, with which argument, in what order.
    spec fn history(&self) -> Seq<TraverseEvent<G::Edge>>;

    /// Before any vertex is visited.
    fn start(&mut self, g: &G) -> (c: Control)
        requires
            g.wf(),
            old(self).inv(g),
        ensures
            final(self).inv(g),
            old(self).never_breaks() ==> c is Continue && final(self).never_breaks(),
            final(self).history() == old(self).history().push(TraverseEvent::Start),
    ;

    /// `v` was white and becomes the root of a new traversal tree.
    fn discover_root_vertex(&mut self, g: &G, v: usize) -> (c: Control)
        requires
            g.wf(),
            old(self).inv(g),
            v < g.spec_n(),
        ensures
            final(self).inv(g),
            old(self).never_breaks() ==> c is Continue && final(self).never_breaks(),
            final(self).history() == old(self).history().push(TraverseEvent::DiscoverRootVertex(v)),
    ;

    /// `v` turns white to gray.
    fn discover_vertex(&mut self, g: &G, v: usize) -> (c: Control)
        requires
            g.wf(),
            old(self).inv(g),
            v < g.spec_n(),
        ensures
            final(self).inv(g),
            old(self).never_breaks() ==> c is Continue && final(self).never_breaks(),
            final(self).history() == old(self).history().push(TraverseEvent::DiscoverVertex(v)),
    ;

    /// An edge out of the frontier is examined, before classification.
    fn discover_edge(&mut self, g: &G, e: G::Edge) -> (c: Control)
        requires
            g.wf(),
            old(self).inv(g),
            g.edge_wf(e),
        ensures
            final(self).inv(g),
            old(self).never_breaks() ==> c is Continue && final(self).never_breaks(),
            final(self).history() == old(self).history().push(TraverseEvent::DiscoverEdge(e)),
    ;

    /// The edge leads to a white target: it becomes part of the tree.
    fn discover_tree_edge(&mut self, g: &G, e: G::Edge) -> (c: Control)
        requires
            g.wf(),
            old(self).inv(g),
            g.edge_wf(e),
        ensures
            final(self).inv(g),
            old(self).never_breaks() ==> c is Continue && final(self).never_breaks(),
            final(self).history() == old(self).history().push(TraverseEvent::DiscoverTreeEdge(e)),
    ;

    /// The edge leads to a gray target.
    fn discover_back_edge(&mut self, g: &G, e: G::Edge) -> (c: Control)
        requires
            g.wf(),
            old(self).inv(g),
            g.edge_wf(e),
        ensures
            final(self).inv(g),
            old(self).never_breaks() ==> c is Continue && final(self).never_breaks(),
            final(self).history() == old(self).history().push(TraverseEvent::DiscoverBackEdge(e)),
    ;

    /// The edge leads to a black target.
    fn discover_cross_or_forward_edge(&mut self, g: &G, e: G::Edge) -> (c: Control)
        requires
            g.wf(),
            old(self).inv(g),
            g.edge_wf(e),
        ensures
            final(self).inv(g),
            old(self).never_breaks() ==> c is Continue && final(self).never_breaks(),
            final(self).history() == old(self).history().push(TraverseEvent::DiscoverCrossOrForwardEdge(e)),
    ;

    /// The edge's classification hooks have run.
    fn finish_edge(&mut self, g: &G, e: G::Edge) -> (c: Control)
        requires
            g.wf(),
            old(self).inv(g),
            g.edge_wf(e),
        ensures
            final(self).inv(g),
            old(self).never_breaks() ==> c is Continue && final(self).never_breaks(),
            final(self).history() == old(self).history().push(TraverseEvent::FinishEdge(e)),
    ;

    /// The subtree reached through this tree edge is fully finished.
    fn finish_tree_edge(&mut self, g: &G, e: G::Edge) -> (c: Control)
        requires
            g.wf(),
            old(self).inv(g),
            g.edge_wf(e),
        ensures
            final(self).inv(g),
            old(self).never_breaks() ==> c is Continue && final(self).never_breaks(),
            final(self).history() == old(self).history().push(TraverseEvent::FinishTreeEdge(e)),
    ;

    /// `v` turns gray to black: all its incident edges are explored.
    fn finish_vertex(&mut self, g: &G, v: usize) -> (c: Control)
        requires
            g.wf(),
            old(self).inv(g),
            v < g.spec_n(),
        ensures
            final(self).inv(g),
            old(self).never_breaks() ==> c is Continue && final(self).never_breaks(),
            final(self).history() == old(self).history().push(TraverseEvent::FinishVertex(v)),
    ;

    /// The current root's component is fully explored.
    fn finish_root_vertex(&mut self, g: &G, v: usize) -> (c: Control)
        requires
            g.wf(),
            old(self).inv(g),
            v < g.spec_n(),
        ensures
            final(self).inv(g),
            old(self).never_breaks() ==> c is Continue && final(self).never_breaks(),
            final(self).history() == old(self).history().push(TraverseEvent::FinishRootVertex(v)),
    ;

    /// All roots were attempted; the answer is the run's final signal.
    fn finish(&mut self, g: &G) -> (c: Control)
        requires
            g.wf(),
            old(self).inv(g),
        ensures
            final(self).inv(g),
            old(self).never_breaks() ==> c is Continue && final(self).never_breaks(),
            final(self).history() == old(self).history().push(TraverseEvent::Finish),
    ;
}

/// The frontier of a breadth first traversal: each entry is a discovered
/// vertex together with the tree edge it was discovered through (`None` at a
/// root).
pub type BfsQueue<E> = VecDeque<(Option<E>, usize)>;

/// Builds the default frontier: an empty queue.
pub struct NewBfsQueue;

impl NewBfsQueue {
    /// An empty frontier.
    pub fn build<E>(self) -> (q: BfsQueue<E>)
        ensures
            q@.len() == 0,
    {
        VecDeque::new()
    }
}

/// Every queue entry is a vertex of `g`, paired with an edge of `g` when it
/// has a parent edge.
pub open spec fn queue_wf<G: Incidence>(g: &G, q: Seq<(Option<G::Edge>, usize)>) -> bool {
    forall|k: int|
        0 <= k < q.len() ==> (#[trigger] q[k]).1 < g.spec_n() && (q[k].0 matches Some(e)
            ==> g.edge_wf(e))
}

/// `v` is connected to the vertex of one of the seed entries.
pub open spec fn seed_conn<G: Incidence>(
    g: &G,
    seeds: Seq<(Option<G::Edge>, usize)>,
    v: int,
) -> bool {
    exists|k: int|
        0 <= k < seeds.len() && connected_pair(g, (#[trigger] seeds[k]).1 as int, v)
}

/// A frontier entry fit to process: a discovered vertex of the graph,
/// entered (unless it is a seed) through an edge of the graph whose target
/// it is and whose source is itself discovered.
pub open spec fn entry_ok<G: Incidence>(
    g: &G,
    c: Seq<Color>,
    en: (Option<G::Edge>, usize),
) -> bool {
    &&& en.1 < g.spec_n()
    &&& !(c[en.1 as int] is White)
    &&& (en.0 matches Some(f) ==> g.edge_wf(f) && g.edge_target(f) == en.1 as int && 0
        <= g.edge_source(f) < g.spec_n() && !(c[g.edge_source(f)] is White))
}

/// Every frontier entry is fit to process.
pub open spec fn queue_ok<G: Incidence>(
    g: &G,
    c: Seq<Color>,
    q: Seq<(Option<G::Edge>, usize)>,
) -> bool {
    forall|k: int| 0 <= k < q.len() ==> entry_ok(g, c, #[trigger] q[k])
}

/// Every vertex on the frontier (gray) sits in the queue.
pub open spec fn grays_queued<G: Incidence>(
    g: &G,
    c: Seq<Color>,
    q: Seq<(Option<G::Edge>, usize)>,
) -> bool {
    forall|v: int|
        0 <= v < c.len() && (#[trigger] c[v]) is Gray ==> exists|k: int|
            0 <= k < q.len() && (#[trigger] q[k]).1 as int == v
}

/// The target of the `i`-th out-edge of `v` is discovered.
pub open spec fn nbr_nonwhite<G: Incidence>(g: &G, c: Seq<Color>, v: int, i: int) -> bool {
    let t = g.edge_target(g.spec_out_edge(v, i));
    0 <= t < c.len() && !(c[t] is White)
}

/// No finished (black) vertex has an undiscovered neighbor.
pub open spec fn blacks_closed<G: Incidence>(g: &G, c: Seq<Color>) -> bool {
    forall|v: int, i: int|
        0 <= v < g.spec_n() && c[v] is Black && 0 <= i < g.spec_out_degree(v)
            ==> #[trigger] nbr_nonwhite(g, c, v, i)
}

// The event protocol, as a value: a specification-level replay of the
// engine.  For a visitor that never breaks, the engine fires exactly the
// events this replay lists, in this order.

/// The colors, frontier and fired events after the `i`-th out-edge of `u`
/// is examined: skipped edges fire nothing, a white target joins the tree,
/// a gray or black target is classified and finished.
pub open spec fn trace_step<G: Incidence>(
    g: &G,
    u: int,
    i: int,
    from: Option<G::Edge>,
    c: Seq<Color>,
    q: Seq<(Option<G::Edge>, usize)>,
    ev: Seq<TraverseEvent<G::Edge>>,
) -> (Seq<Color>, Seq<(Option<G::Edge>, usize)>, Seq<TraverseEvent<G::Edge>>) {
    let e = g.spec_out_edge(u, i);
    let v = g.edge_target(e);
    let from_same = match from {
        Option::Some(f) => g.edge_id(e) == g.edge_id(f),
        Option::None => false,
    };
    if !(0 <= v < c.len()) {
        (c, q, ev)
    } else if (G::undirected() && c[v] is Black) || from_same {
        (c, q, ev)
    } else if c[v] is White {
        (
            c.update(v, Color::Gray),
            q.push((Option::Some(e), v as usize)),
            ev.push(TraverseEvent::DiscoverEdge(e)).push(TraverseEvent::DiscoverTreeEdge(e)).push(
                TraverseEvent::DiscoverVertex(v as usize),
            ),
        )
    } else if c[v] is Gray {
        (
            c,
            q,
            ev.push(TraverseEvent::DiscoverEdge(e)).push(TraverseEvent::DiscoverBackEdge(e)).push(
                TraverseEvent::FinishEdge(e),
            ),
        )
    } else {
        (
            c,
            q,
            ev.push(TraverseEvent::DiscoverEdge(e)).push(
                TraverseEvent::DiscoverCrossOrForwardEdge(e),
            ).push(TraverseEvent::FinishEdge(e)),
        )
    }
}

/// Examine the out-edges of `u` from position `i` on.
pub open spec fn trace_scan<G: Incidence>(
    g: &G,
    u: int,
    i: int,
    from: Option<G::Edge>,
    c: Seq<Color>,
    q: Seq<(Option<G::Edge>, usize)>,
    ev: Seq<TraverseEvent<G::Edge>>,
) -> (Seq<Color>, Seq<(Option<G::Edge>, usize)>, Seq<TraverseEvent<G::Edge>>)
    decreases g.spec_out_degree(u) - i,
{
    if 0 <= i < g.spec_out_degree(u) {
        let (c1, q1, e1) = trace_step(g, u, i, from, c, q, ev);
        trace_scan(g, u, i + 1, from, c1, q1, e1)
    } else {
        (c, q, ev)
    }
}

/// Examining edges never lengthens the color map and never raises the
/// traversal measure: each enqueue pays for itself by discovering a white
/// vertex.
proof fn lemma_trace_scan_measure<G: Incidence>(
    g: &G,
    u: int,
    i: int,
    from: Option<G::Edge>,
    c: Seq<Color>,
    q: Seq<(Option<G::Edge>, usize)>,
    ev: Seq<TraverseEvent<G::Edge>>,
)
    ensures
        ({
            let (c1, q1, e1) = trace_scan(g, u, i, from, c, q, ev);
            c1.len() == c.len() && white_count(c1) + q1.len() <= white_count(c) + q.len()
        }),
    decreases g.spec_out_degree(u) - i,
{
    if 0 <= i < g.spec_out_degree(u) {
        let (c1, q1, e1) = trace_step(g, u, i, from, c, q, ev);
        let e = g.spec_out_edge(u, i);
        let v = g.edge_target(e);
        if 0 <= v < c.len() && c[v] is White {
            lemma_white_count_update(c, v, Color::Gray);
        }
        lemma_trace_scan_measure(g, u, i + 1, from, c1, q1, e1);
    }
}

/// Drain the frontier, replaying what the engine does for each entry.
pub open spec fn trace_drain<G: Incidence>(
    g: &G,
    c: Seq<Color>,
    q: Seq<(Option<G::Edge>, usize)>,
    ev: Seq<TraverseEvent<G::Edge>>,
) -> (Seq<Color>, Seq<TraverseEvent<G::Edge>>)
    decreases white_count(c) + q.len(),
    via trace_drain_dec::<G>
{
    if q.len() == 0 {
        (c, ev)
    } else {
        let from = q[0].0;
        let u = q[0].1 as int;
        if !(0 <= u < c.len()) {
            trace_drain(g, c, q.drop_first(), ev)
        } else {
            let (c1, q1, e1) = trace_scan(g, u, 0, from, c, q.drop_first(), ev);
            let c2 = c1.update(u, Color::Black);
            let e2 = match from {
                Option::Some(f) => e1.push(TraverseEvent::FinishVertex(u as usize)).push(
                    TraverseEvent::FinishTreeEdge(f),
                ).push(TraverseEvent::FinishEdge(f)),
                Option::None => e1.push(TraverseEvent::FinishVertex(u as usize)),
            };
            trace_drain(g, c2, q1, e2)
        }
    }
}

#[via_fn]
proof fn trace_drain_dec<G: Incidence>(
    g: &G,
    c: Seq<Color>,
    q: Seq<(Option<G::Edge>, usize)>,
    ev: Seq<TraverseEvent<G::Edge>>,
) {
    lemma_white_count_bounds(c);
    if q.len() > 0 {
        let u = q[0].1 as int;
        if 0 <= u < c.len() {
            let from = q[0].0;
            let (c1, q1, e1) = trace_scan(g, u, 0, from, c, q.drop_first(), ev);
            lemma_trace_scan_measure(g, u, 0, from, c, q.drop_first(), ev);
            lemma_white_count_update(c1, u, Color::Black);
            lemma_white_count_bounds(c1.update(u, Color::Black));
        }
    }
}

/// Attempt the roots in order: each root still white starts a tree whose
/// whole component is drained before the next root.
pub open spec fn trace_roots<G: Incidence>(
    g: &G,
    roots: Seq<usize>,
    k: int,
    c: Seq<Color>,
    ev: Seq<TraverseEvent<G::Edge>>,
) -> (Seq<Color>, Seq<TraverseEvent<G::Edge>>)
    decreases roots.len() - k,
{
    if 0 <= k < roots.len() {
        let r = roots[k] as int;
        if 0 <= r < c.len() && c[r] is White {
            let (c1, e1) = trace_drain(
                g,
                c.update(r, Color::Gray),
                seq![(Option::<G::Edge>::None, roots[k])],
                ev.push(TraverseEvent::DiscoverRootVertex(roots[k])).push(
                    TraverseEvent::DiscoverVertex(roots[k]),
                ),
            );
            trace_roots(g, roots, k + 1, c1, e1.push(TraverseEvent::FinishRootVertex(roots[k])))
        } else {
            trace_roots(g, roots, k + 1, c, ev)
        }
    } else {
        (c, ev)
    }
}

/// The whole event sequence of a completed run over `roots`: opening event,
/// every root's bracketed component traversal, closing event.  A run whose
/// visitor never breaks fires exactly this.
pub open spec fn bfs_trace<G: Incidence>(g: &G, roots: Seq<usize>) -> Seq<
    TraverseEvent<G::Edge>,
> {
    let n = if g.spec_n() >= 0 {
        g.spec_n() as nat
    } else {
        0
    };
    trace_roots(
        g,
        roots,
        0,
        Seq::new(n, |v: int| Color::White),
        seq![TraverseEvent::<G::Edge>::Start],
    ).1.push(TraverseEvent::Finish)
}

/// The replay only appends events: a prefix already recorded rides along
/// unchanged.
proof fn lemma_trace_scan_prefix<G: Incidence>(
    g: &G,
    u: int,
    i: int,
    from: Option<G::Edge>,
    c: Seq<Color>,
    q: Seq<(Option<G::Edge>, usize)>,
    ev1: Seq<TraverseEvent<G::Edge>>,
    ev2: Seq<TraverseEvent<G::Edge>>,
)
    ensures
        ({
            let (ca, qa, ea) = trace_scan(g, u, i, from, c, q, ev1 + ev2);
            let (cb, qb, eb) = trace_scan(g, u, i, from, c, q, ev2);
            ca == cb && qa == qb && ea == ev1 + eb
        }),
    decreases g.spec_out_degree(u) - i,
{
    if 0 <= i < g.spec_out_degree(u) {
        let (c1, q1, e1) = trace_step(g, u, i, from, c, q, ev1 + ev2);
        let (c2, q2, e2) = trace_step(g, u, i, from, c, q, ev2);
        assert(c1 == c2 && q1 == q2 && e1 == ev1 + e2) by {
            let e = g.spec_out_edge(u, i);
            assert forall|a: TraverseEvent<G::Edge>, b: TraverseEvent<G::Edge>, d: TraverseEvent<
                G::Edge,
            >|
                true implies #[trigger] (ev1 + ev2).push(a).push(b).push(d) == ev1 + ev2.push(
                a,
            ).push(b).push(d) by {
                assert((ev1 + ev2).push(a).push(b).push(d) =~= ev1 + ev2.push(a).push(b).push(d));
            }
        }
        lemma_trace_scan_prefix(g, u, i + 1, from, c1, q1, ev1, e2);
    }
}

/// The same, for draining the whole frontier.
proof fn lemma_trace_drain_prefix<G: Incidence>(
    g: &G,
    c: Seq<Color>,
    q: Seq<(Option<G::Edge>, usize)>,
    ev1: Seq<TraverseEvent<G::Edge>>,
    ev2: Seq<TraverseEvent<G::Edge>>,
)
    ensures
        ({
            let (ca, ea) = trace_drain(g, c, q, ev1 + ev2);
            let (cb, eb) = trace_drain(g, c, q, ev2);
            ca == cb && ea == ev1 + eb
        }),
    decreases white_count(c) + q.len(),
{
    lemma_white_count_bounds(c);
    if q.len() > 0 {
        let from = q[0].0;
        let u = q[0].1 as int;
        if !(0 <= u < c.len()) {
            lemma_trace_drain_prefix(g, c, q.drop_first(), ev1, ev2);
        } else {
            let (c1, q1, e1a) = trace_scan(g, u, 0, from, c, q.drop_first(), ev1 + ev2);
            let (_, _, e1b) = trace_scan(g, u, 0, from, c, q.drop_first(), ev2);
            lemma_trace_scan_prefix(g, u, 0, from, c, q.drop_first(), ev1, ev2);
            lemma_trace_scan_measure(g, u, 0, from, c, q.drop_first(), ev2);
            lemma_white_count_update(c1, u, Color::Black);
            lemma_white_count_bounds(c1.update(u, Color::Black));
            let e2a = match from {
                Option::Some(f) => e1a.push(TraverseEvent::FinishVertex(u as usize)).push(
                    TraverseEvent::FinishTreeEdge(f),
                ).push(TraverseEvent::FinishEdge(f)),
                Option::None => e1a.push(TraverseEvent::FinishVertex(u as usize)),
            };
            let e2b = match from {
                Option::Some(f) => e1b.push(TraverseEvent::FinishVertex(u as usize)).push(
                    TraverseEvent::FinishTreeEdge(f),
                ).push(TraverseEvent::FinishEdge(f)),
                Option::None => e1b.push(TraverseEvent::FinishVertex(u as usize)),
            };
            assert(e2a == ev1 + e2b) by {
                assert(e2a =~= ev1 + e2b);
            }
            lemma_trace_drain_prefix(g, c1.update(u, Color::Black), q1, ev1, e2b);
        }
    }
}

/// The same, for the whole root sweep.
proof fn lemma_trace_roots_prefix<G: Incidence>(
    g: &G,
    roots: Seq<usize>,
    k: int,
    c: Seq<Color>,
    ev1: Seq<TraverseEvent<G::Edge>>,
    ev2: Seq<TraverseEvent<G::Edge>>,
)
    ensures
        ({
            let (ca, ea) = trace_roots(g, roots, k, c, ev1 + ev2);
            let (cb, eb) = trace_roots(g, roots, k, c, ev2);
            ca == cb && ea == ev1 + eb
        }),
    decreases roots.len() - k,
{
    if 0 <= k < roots.len() {
        let r = roots[k] as int;
        if 0 <= r < c.len() && c[r] is White {
            let eva = (ev1 + ev2).push(TraverseEvent::DiscoverRootVertex(roots[k])).push(
                TraverseEvent::DiscoverVertex(roots[k]),
            );
            let evb = ev2.push(TraverseEvent::DiscoverRootVertex(roots[k])).push(
                TraverseEvent::DiscoverVertex(roots[k]),
            );
            assert(eva == ev1 + evb) by {
                assert(eva =~= ev1 + evb);
            }
            let q0 = seq![(Option::<G::Edge>::None, roots[k])];
            lemma_trace_drain_prefix(g, c.update(r, Color::Gray), q0, ev1, evb);
            let (c1, e1b) = trace_drain(g, c.update(r, Color::Gray), q0, evb);
            assert((ev1 + e1b).push(TraverseEvent::FinishRootVertex(roots[k])) == ev1
                + e1b.push(TraverseEvent::FinishRootVertex(roots[k]))) by {
                assert((ev1 + e1b).push(TraverseEvent::FinishRootVertex(roots[k])) =~= ev1
                    + e1b.push(TraverseEvent::FinishRootVertex(roots[k])));
            }
            lemma_trace_roots_prefix(
                g,
                roots,
                k + 1,
                c1,
                ev1,
                e1b.push(TraverseEvent::FinishRootVertex(roots[k])),
            );
        } else {
            lemma_trace_roots_prefix(g, roots, k + 1, c, ev1, ev2);
        }
    }
}

/// Drain the frontier: process each queued vertex
/// Drain the frontier: process each queued vertex, examine its out-edges,
/// classify each by the target's color, and report every step to the
/// visitor.  The immediate reverse of the edge a vertex was entered through
/// is skipped, as is the black-target re-examination of an undirected edge
/// already finished from its other side.
///
/// Colors only move forward, every vertex colored by the run is connected
/// to a seed, and a run the visitor did not break drains the frontier,
/// leaves no gray vertex, and finishes exactly the vertices connected to
/// the seeds (on top of those already finished).
pub fn bfs_visit<G: Incidence, V: Visitor<G>>(
    g: &G,
    color: &mut PropMap<Color>,
    queue: &mut BfsQueue<G::Edge>,
    vis: &mut V,
) -> (r: Control)
    requires
        g.wf(),
        old(vis).inv(g),
        old(color)@.len() == g.spec_n(),
        queue_ok(g, old(color)@, old(queue)@),
        grays_queued(g, old(color)@, old(queue)@),
        blacks_closed(g, old(color)@),
    ensures
        final(vis).inv(g),
        final(color)@.len() == g.spec_n(),
        forall|v: int|
            0 <= v < g.spec_n() ==> color_le(old(color)@[v], #[trigger] final(color)@[v]),
        queue_wf(g, final(queue)@),
        forall|v: int|
            0 <= v < g.spec_n() && !((#[trigger] final(color)@[v]) is White)
                ==> !(old(color)@[v] is White) || seed_conn(g, old(queue)@, v),
        r is Continue ==> final(queue)@.len() == 0,
        r is Continue ==> (forall|v: int|
            0 <= v < g.spec_n() ==> !((#[trigger] final(color)@[v]) is Gray)),
        r is Continue ==> blacks_closed(g, final(color)@),
        r is Continue ==> (forall|v: int|
            0 <= v < g.spec_n() && #[trigger] seed_conn(g, old(queue)@, v)
                ==> final(color)@[v] is Black),
        old(queue)@.len() == 0 ==> r is Continue && final(color)@ == old(color)@
            && final(queue)@ == old(queue)@ && *final(vis) == *old(vis),
        old(vis).never_breaks() ==> r is Continue && final(vis).never_breaks(),
        old(vis).never_breaks() ==> (final(color)@, final(vis).history()) == trace_drain(
            g,
            old(color)@,
            old(queue)@,
            old(vis).history(),
        ),
{
    proof {
        lemma_white_count_bounds(color@);
        assert forall|k: int| 0 <= k < queue@.len() implies entry_ok(g, color@, #[trigger] queue@[k])
            && connected_pair(g, queue@[k].1 as int, queue@[k].1 as int) && seed_conn(
            g,
            old(queue)@,
            queue@[k].1 as int,
        ) by {
            crate::graphs::lemma_connected_refl(g, queue@[k].1 as int);
        }
    }
    while queue.len() > 0
        invariant
            g.wf(),
            vis.inv(g),
            color@.len() == g.spec_n(),
            queue_ok(g, color@, queue@),
            grays_queued(g, color@, queue@),
            blacks_closed(g, color@),
            forall|k: int|
                0 <= k < queue@.len() ==> seed_conn(g, old(queue)@, (#[trigger] queue@[k]).1 as int),
            forall|v: int|
                0 <= v < g.spec_n() ==> color_le(old(color)@[v], #[trigger] color@[v]),
            forall|v: int|
                0 <= v < g.spec_n() && !((#[trigger] color@[v]) is White)
                    ==> !(old(color)@[v] is White) || seed_conn(g, old(queue)@, v),
            old(queue)@.len() == 0 ==> color@ == old(color)@ && queue@ == old(queue)@ && *vis
                == *old(vis),
            old(vis).never_breaks() ==> vis.never_breaks(),
            old(vis).never_breaks() ==> trace_drain(g, color@, queue@, vis.history())
                == trace_drain(g, old(color)@, old(queue)@, old(vis).history()),
        decreases white_count(color@) + queue@.len(),
    {
        let ghost m0 = white_count(color@) + queue@.len();
        let ghost q0 = queue@;
        let ghost ch = color@;
        let ghost hh = vis.history();
        let entry = queue.pop_front().unwrap();
        let from = entry.0;
        let u = entry.1;
        let ghost qp = queue@;
        proof {
            assert(entry_ok(g, color@, q0[0]));
            assert(seed_conn(g, old(queue)@, u as int));
            assert forall|k: int|
                0 <= k < queue@.len() implies entry_ok(g, color@, #[trigger] queue@[k])
                && seed_conn(g, old(queue)@, queue@[k].1 as int) by {
                assert(queue@[k] == q0[k + 1]);
                assert(entry_ok(g, color@, q0[k + 1]));
                assert(seed_conn(g, old(queue)@, q0[k + 1].1 as int));
            }
            assert forall|v: int|
                0 <= v < color@.len() && (#[trigger] color@[v]) is Gray && v != u as int implies
                exists|k: int|
                0 <= k < queue@.len() && (#[trigger] queue@[k]).1 as int == v by {
                let k = choose|k: int| 0 <= k < q0.len() && (#[trigger] q0[k]).1 as int == v;
                assert(k >= 1);
                assert(queue@[k - 1].1 as int == v);
            }
        }
        let deg = g.out_degree(u);
        let mut i: usize = 0;
        while i < deg
            invariant
                g.wf(),
                vis.inv(g),
                color@.len() == g.spec_n(),
                queue_ok(g, color@, queue@),
                blacks_closed(g, color@),
                forall|k: int|
                    0 <= k < queue@.len() ==> seed_conn(
                        g,
                        old(queue)@,
                        (#[trigger] queue@[k]).1 as int,
                    ),
                forall|v: int|
                    0 <= v < color@.len() && (#[trigger] color@[v]) is Gray && v != u as int
                        ==> exists|k: int|
                        0 <= k < queue@.len() && (#[trigger] queue@[k]).1 as int == v,
                forall|v: int|
                    0 <= v < g.spec_n() ==> color_le(old(color)@[v], #[trigger] color@[v]),
                forall|v: int|
                    0 <= v < g.spec_n() && !((#[trigger] color@[v]) is White)
                        ==> !(old(color)@[v] is White) || seed_conn(g, old(queue)@, v),
                old(queue)@.len() > 0,
                old(vis).never_breaks() ==> vis.never_breaks(),
                u < g.spec_n(),
                !(color@[u as int] is White),
                seed_conn(g, old(queue)@, u as int),
                deg == g.spec_out_degree(u as int),
                from matches Some(f) ==> g.edge_wf(f) && g.edge_target(f) == u as int && 0
                    <= g.edge_source(f) < g.spec_n() && !(color@[g.edge_source(f)] is White),
                forall|j: int| 0 <= j < i ==> #[trigger] nbr_nonwhite(g, color@, u as int, j),
                white_count(color@) + queue@.len() <= m0 - 1,
                old(vis).never_breaks() ==> trace_scan(
                    g,
                    u as int,
                    i as int,
                    from,
                    color@,
                    queue@,
                    vis.history(),
                ) == trace_scan(g, u as int, 0, from, ch, qp, hh),
            decreases deg - i,
        {
            let e = g.out_edge_at(u, i);
            proof {
                g.lemma_out_edge_wf(u as int, i as int);
                g.lemma_edge_bounds(g.spec_out_edge(u as int, i as int));
            }
            let v = g.target(e);
            let from_same = match from {
                Some(f) => g.same_edge(e, f),
                None => false,
            };
            let undirected_black = g.is_undirected_edge(e) && color.get(v) == Color::Black;
            if !(undirected_black || from_same) {
                if vis.discover_edge(g, e) == Control::Break {
                    return Control::Break;
                }
                let cv = color.get(v);
                if cv == Color::White {
                    proof {
                        lemma_white_count_update(color@, v as int, Color::Gray);
                    }
                    let ghost c0 = color@;
                    let ghost q1 = queue@;
                    color.set(v, Color::Gray);
                    queue.push_back((Some(e), v));
                    proof {
                        // The new entry is fit; everything already queued
                        // stays fit, one slot having only gained color.
                        assert forall|w0: int|
                            0 <= w0 < g.spec_n() implies color_le(c0[w0], #[trigger] color@[w0]) by {
                        }
                        assert(connected_pair(g, u as int, v as int)) by {
                            crate::graphs::lemma_connected_refl(g, u as int);
                            crate::graphs::lemma_connected_step(g, u as int, u as int, v as int);
                        }
                        assert(seed_conn(g, old(queue)@, v as int)) by {
                            assert(seed_conn(g, old(queue)@, u as int));
                            let k = choose|k: int|
                                0 <= k < old(queue)@.len() && connected_pair(
                                    g,
                                    (#[trigger] old(queue)@[k]).1 as int,
                                    u as int,
                                );
                            crate::graphs::lemma_connected_trans(
                                g,
                                old(queue)@[k].1 as int,
                                u as int,
                                v as int,
                            );
                            assert(connected_pair(g, old(queue)@[k].1 as int, v as int));
                        }
                        assert forall|k: int|
                            0 <= k < queue@.len() implies entry_ok(g, color@, #[trigger] queue@[k])
                            && seed_conn(g, old(queue)@, queue@[k].1 as int) by {
                            if k < q1.len() {
                                assert(queue@[k] == q1[k]);
                                assert(entry_ok(g, c0, q1[k]));
                                assert(seed_conn(g, old(queue)@, q1[k].1 as int));
                                if q1[k].0 is Some {
                                    let f = q1[k].0->0;
                                    assert(!(c0[g.edge_source(f)] is White));
                                    assert(!(color@[g.edge_source(f)] is White));
                                }
                            } else {
                                assert(queue@[k] == (Some(e), v));
                                assert(g.edge_target(e) == v as int);
                                assert(g.edge_source(e) == u as int);
                                assert(!(color@[u as int] is White));
                            }
                        }
                        assert forall|w0: int|
                            0 <= w0 < color@.len() && (#[trigger] color@[w0]) is Gray && w0 != u
                                as int implies exists|k: int|
                            0 <= k < queue@.len() && (#[trigger] queue@[k]).1 as int == w0 by {
                            if w0 == v as int {
                                assert(queue@[queue@.len() - 1].1 as int == w0);
                            } else {
                                let k = choose|k: int|
                                    0 <= k < q1.len() && (#[trigger] q1[k]).1 as int == w0;
                                assert(queue@[k].1 as int == w0);
                            }
                        }
                        assert forall|w0: int, j: int|
                            0 <= w0 < g.spec_n() && color@[w0] is Black && 0 <= j
                                < g.spec_out_degree(w0) implies #[trigger] nbr_nonwhite(
                            g,
                            color@,
                            w0,
                            j,
                        ) by {
                            assert(c0[w0] is Black);
                            assert(nbr_nonwhite(g, c0, w0, j));
                        }
                        assert forall|j: int| 0 <= j <= i implies #[trigger] nbr_nonwhite(
                            g,
                            color@,
                            u as int,
                            j,
                        ) by {
                            if j < i {
                                assert(nbr_nonwhite(g, c0, u as int, j));
                            }
                        }
                    }
                    if vis.discover_tree_edge(g, e) == Control::Break {
                        return Control::Break;
                    }
                    if vis.discover_vertex(g, v) == Control::Break {
                        return Control::Break;
                    }
                    i = i + 1;
                    continue;
                } else if cv == Color::Gray {
                    if vis.discover_back_edge(g, e) == Control::Break {
                        return Control::Break;
                    }
                } else {
                    if vis.discover_cross_or_forward_edge(g, e) == Control::Break {
                        return Control::Break;
                    }
                }
                if vis.finish_edge(g, e) == Control::Break {
                    return Control::Break;
                }
            } else {
                proof {
                    // A skipped edge's target is already discovered: a
                    // black target outright, and the entry edge's other
                    // view leads back to the entered vertex or to the
                    // discovered vertex it came from.
                    if !undirected_black {
                        let f = from->0;
                        g.lemma_same_id_ends(e, f);
                    }
                    assert(nbr_nonwhite(g, color@, u as int, i as int));
                }
            }
            i = i + 1;
        }
        proof {
            lemma_white_count_update(color@, u as int, Color::Black);
        }
        let ghost c1 = color@;
        let ghost q2 = queue@;
        color.set(u, Color::Black);
        proof {
            lemma_white_count_bounds(color@);
            assert forall|k: int|
                0 <= k < queue@.len() implies entry_ok(g, color@, #[trigger] queue@[k]) by {
                assert(entry_ok(g, c1, q2[k]));
                if q2[k].0 is Some {
                    let f = q2[k].0->0;
                    assert(!(c1[g.edge_source(f)] is White));
                    assert(!(color@[g.edge_source(f)] is White));
                }
                assert(!(color@[q2[k].1 as int] is White));
            }
            assert forall|w0: int|
                0 <= w0 < color@.len() && (#[trigger] color@[w0]) is Gray implies exists|k: int|
                0 <= k < queue@.len() && (#[trigger] queue@[k]).1 as int == w0 by {
                assert(c1[w0] is Gray && w0 != u as int);
            }
            assert forall|w0: int, j: int|
                0 <= w0 < g.spec_n() && color@[w0] is Black && 0 <= j < g.spec_out_degree(w0)
                    implies #[trigger] nbr_nonwhite(g, color@, w0, j) by {
                if w0 == u as int {
                    assert(nbr_nonwhite(g, c1, u as int, j));
                } else {
                    assert(c1[w0] is Black);
                    assert(nbr_nonwhite(g, c1, w0, j));
                }
            }
        }
        if vis.finish_vertex(g, u) == Control::Break {
            return Control::Break;
        }
        if let Some(f) = from {
            if vis.finish_tree_edge(g, f) == Control::Break {
                return Control::Break;
            }
            if vis.finish_edge(g, f) == Control::Break {
                return Control::Break;
            }
        }
    }
    proof {
        // An empty frontier with no gray vertex leaves the black set closed
        // under adjacency, so it swallows every walk from a seed.
        let c = color@;
        let m = Seq::new(c.len(), |v: int| c[v] is Black);
        assert forall|v: int, j: int|
            0 <= v < g.spec_n() && m[v] && 0 <= j < g.spec_out_degree(v)
                implies #[trigger] crate::algs::nbr_marked(g, m, v, j) by {
            assert(c[v] is Black);
            assert(nbr_nonwhite(g, c, v, j));
            let t = g.edge_target(g.spec_out_edge(v, j));
            assert(!(c[t] is White) && !(c[t] is Gray));
        }
        assert forall|v: int|
            0 <= v < g.spec_n() && #[trigger] seed_conn(g, old(queue)@, v) implies color@[v]
            is Black by {
            let k = choose|k: int|
                0 <= k < old(queue)@.len() && connected_pair(
                    g,
                    (#[trigger] old(queue)@[k]).1 as int,
                    v,
                );
            let s = old(queue)@[k].1 as int;
            assert(entry_ok(g, old(color)@, old(queue)@[k]));
            assert(!(old(color)@[s] is White));
            assert(!(color@[s] is White) && !(color@[s] is Gray));
            assert(m[s]);
            let p = choose|p: Seq<int>| crate::graphs::is_walk(g, p, s, v);
            crate::algs::lemma_closed_covers_walks(g, m, p, s, v);
        }
    }
    Control::Continue
}

/// One completed root run extends the covered components by exactly the
/// new root's component.
proof fn lemma_run_cover_step<G: Incidence>(
    g: &G,
    roots: Seq<usize>,
    k: int,
    c0: Seq<Color>,
    cin: Seq<Color>,
    cfin: Seq<Color>,
    qin: Seq<(Option<G::Edge>, usize)>,
)
    requires
        g.wf(),
        0 <= k < roots.len(),
        (roots[k] as int) < g.spec_n(),
        c0.len() == g.spec_n(),
        forall|v: int| 0 <= v < g.spec_n() ==> !((#[trigger] c0[v]) is Gray),
        cin == c0.update(roots[k] as int, Color::Gray),
        c0[roots[k] as int] is White,
        qin.len() == 1,
        qin[0].1 == roots[k],
        cfin.len() == g.spec_n(),
        forall|v: int| 0 <= v < g.spec_n() ==> color_le(cin[v], #[trigger] cfin[v]),
        forall|v: int|
            0 <= v < g.spec_n() && !((#[trigger] cfin[v]) is White) ==> !(cin[v] is White)
                || seed_conn(g, qin, v),
        forall|v: int| 0 <= v < g.spec_n() ==> !((#[trigger] cfin[v]) is Gray),
        forall|v: int|
            0 <= v < g.spec_n() && #[trigger] seed_conn(g, qin, v) ==> cfin[v] is Black,
        forall|v: int|
            0 <= v < g.spec_n() ==> ((#[trigger] c0[v]) is Black <==> exists|j: int|
                0 <= j < k && connected_pair(g, (#[trigger] roots[j]) as int, v)),
    ensures
        forall|v: int|
            0 <= v < g.spec_n() ==> ((#[trigger] cfin[v]) is Black <==> exists|j: int|
                0 <= j < k + 1 && connected_pair(g, (#[trigger] roots[j]) as int, v)),
{
    let r = roots[k] as int;
    assert forall|v: int|
        0 <= v < g.spec_n() implies ((#[trigger] cfin[v]) is Black <==> exists|j: int|
        0 <= j < k + 1 && connected_pair(g, (#[trigger] roots[j]) as int, v)) by {
        if cfin[v] is Black {
            if !(cin[v] is White) {
                if v == r {
                    crate::graphs::lemma_connected_refl(g, v);
                    assert(connected_pair(g, (roots[k]) as int, v));
                } else {
                    assert(c0[v] is Black);
                    let j = choose|j: int|
                        0 <= j < k && connected_pair(g, (#[trigger] roots[j]) as int, v);
                    assert(connected_pair(g, (roots[j]) as int, v));
                }
            } else {
                assert(seed_conn(g, qin, v));
                let kk = choose|kk: int|
                    0 <= kk < qin.len() && connected_pair(g, (#[trigger] qin[kk]).1 as int, v);
                assert(connected_pair(g, (roots[k]) as int, v));
            }
        }
        if exists|j: int|
            0 <= j < k + 1 && connected_pair(g, (#[trigger] roots[j]) as int, v) {
            let j = choose|j: int|
                0 <= j < k + 1 && connected_pair(g, (#[trigger] roots[j]) as int, v);
            if j < k {
                assert(c0[v] is Black);
                assert(color_le(cin[v], cfin[v]));
            } else {
                assert(connected_pair(g, r, v));
                assert(qin[0].1 as int == r);
                assert(seed_conn(g, qin, v));
            }
        }
    }
}

/// A root already finished adds nothing new: its component is already
/// covered.
proof fn lemma_run_cover_skip<G: Incidence>(g: &G, roots: Seq<usize>, k: int, c: Seq<Color>)
    requires
        g.wf(),
        0 <= k < roots.len(),
        (roots[k] as int) < g.spec_n(),
        c.len() == g.spec_n(),
        c[roots[k] as int] is Black,
        forall|v: int|
            0 <= v < g.spec_n() ==> ((#[trigger] c[v]) is Black <==> exists|j: int|
                0 <= j < k && connected_pair(g, (#[trigger] roots[j]) as int, v)),
    ensures
        forall|v: int|
            0 <= v < g.spec_n() ==> ((#[trigger] c[v]) is Black <==> exists|j: int|
                0 <= j < k + 1 && connected_pair(g, (#[trigger] roots[j]) as int, v)),
{
    let r = roots[k] as int;
    let j0 = choose|j0: int| 0 <= j0 < k && connected_pair(g, (#[trigger] roots[j0]) as int, r);
    assert forall|v: int|
        0 <= v < g.spec_n() implies ((#[trigger] c[v]) is Black <==> exists|j: int|
        0 <= j < k + 1 && connected_pair(g, (#[trigger] roots[j]) as int, v)) by {
        if c[v] is Black {
            let j = choose|j: int|
                0 <= j < k && connected_pair(g, (#[trigger] roots[j]) as int, v);
            assert(connected_pair(g, (roots[j]) as int, v));
        }
        if exists|j: int|
            0 <= j < k + 1 && connected_pair(g, (#[trigger] roots[j]) as int, v) {
            let j = choose|j: int|
                0 <= j < k + 1 && connected_pair(g, (#[trigger] roots[j]) as int, v);
            if j == k {
                crate::graphs::lemma_connected_trans(g, (roots[j0]) as int, r, v);
                assert(connected_pair(g, (roots[j0]) as int, v));
            }
        }
    }
}

/// A configured breadth first traversal: the graph, the visitor, and the
/// roots to attempt in order.  Only roots still white when reached start a
/// new tree.
pub struct BfsAlg<'a, G: Incidence, V: Visitor<G>> {
    /// The graph to traverse.
    pub graph: &'a G,
    /// The visitor to report to.
    pub visitor: V,
    /// The root vertices to attempt, in order.
    pub roots: Vec<usize>,
}

impl<'a, G: Incidence, V: Visitor<G>> BfsAlg<'a, G, V> {
    /// A run that can start: graph and visitor invariants hold and every
    /// root is a vertex.
    pub open spec fn wf(&self) -> bool {
        &&& self.graph.wf()
        &&& self.visitor.inv(self.graph)
        &&& forall|k: int| 0 <= k < self.roots@.len() ==> (#[trigger] self.roots@[k]) < self.graph.spec_n()
    }

    /// A traversal of `graph` reporting to `visitor`, attempting every
    /// vertex as a root in increasing order, so that disconnected graphs
    /// are covered by a forest.
    pub fn new(graph: &'a G, visitor: V) -> (alg: Self)
        requires
            graph.wf(),
            visitor.inv(graph),
        ensures
            alg.wf(),
            alg.graph == graph,
            alg.visitor == visitor,
            alg.roots@ == Seq::new(graph.spec_n() as nat, |i: int| i as usize),
    {
        let n = graph.num_vertices();
        let mut roots: Vec<usize> = Vec::new();
        let mut v: usize = 0;
        while v < n
            invariant
                v <= n,
                roots@.len() == v,
                forall|k: int| 0 <= k < v ==> (#[trigger] roots@[k]) == k,
            decreases n - v,
        {
            roots.push(v);
            v = v + 1;
        }
        proof {
            assert(roots@ =~= Seq::new(graph.spec_n() as nat, |i: int| i as usize));
        }
        BfsAlg { graph, visitor, roots }
    }

    /// The same run reporting to `visitor` instead.
    pub fn visitor<W: Visitor<G>>(self, visitor: W) -> (alg: BfsAlg<'a, G, W>)
        requires
            self.wf(),
            visitor.inv(self.graph),
        ensures
            alg.wf(),
            alg.graph == self.graph,
            alg.visitor == visitor,
            alg.roots == self.roots,
    {
        BfsAlg { graph: self.graph, visitor, roots: self.roots }
    }

    /// The same run restricted to the single root `root`.
    pub fn root(self, root: usize) -> (alg: Self)
        requires
            self.wf(),
            root < self.graph.spec_n(),
        ensures
            alg.wf(),
            alg.graph == self.graph,
            alg.visitor == self.visitor,
            alg.roots@.len() == 1,
            alg.roots@[0] == root,
    {
        let mut roots: Vec<usize> = Vec::new();
        roots.push(root);
        BfsAlg { graph: self.graph, visitor: self.visitor, roots }
    }

    /// Run the traversal: fresh all-white colors, an empty frontier, each
    /// root attempted in order.  Returns the final control signal, the
    /// visitor, whose state carries the run's results, and the color map
    /// the run left behind.  A visitor that never breaks gets a completed
    /// run: the signal is `Continue` and the black vertices are exactly
    /// those connected to a listed root.
    pub fn run(self) -> (r: (Control, V, PropMap<Color>))
        requires
            self.wf(),
        ensures
            r.1.inv(self.graph),
            r.2@.len() == self.graph.spec_n(),
            self.visitor.never_breaks() ==> r.0 is Continue && r.1.never_breaks() && (forall|
                v: int,
            |
                0 <= v < self.graph.spec_n() ==> ((#[trigger] r.2@[v]) is Black <==> exists|j: int|
                    0 <= j < self.roots@.len() && connected_pair(
                        self.graph,
                        (#[trigger] self.roots@[j]) as int,
                        v,
                    ))),
            self.visitor.never_breaks() ==> r.1.history() == self.visitor.history() + bfs_trace(
                self.graph,
                self.roots@,
            ),
    {
        let g = self.graph;
        let mut vis = self.visitor;
        let roots = self.roots;
        let ghost nb = self.visitor.never_breaks();
        // A break anywhere, the opening hook included, still flows out
        // through the closing hook, whose answer the run returns.
        let ghost h0 = vis.history();
        let mut stopped = vis.start(g) == Control::Break;
        let ghost hs = vis.history();
        let n = g.num_vertices();
        let mut color = PropMap::with_default(n, Color::White);
        let ghost aw = Seq::new(g.spec_n() as nat, |v: int| Color::White);
        proof {
            assert(color@ =~= aw);
        }
        let mut queue: BfsQueue<G::Edge> = NewBfsQueue.build();
        let mut k: usize = 0;
        while k < roots.len() && !stopped
            invariant
                g.wf(),
                vis.inv(g),
                n == g.spec_n(),
                color@.len() == n,
                forall|j: int| 0 <= j < roots@.len() ==> (#[trigger] roots@[j]) < g.spec_n(),
                k <= roots@.len(),
                roots == self.roots,
                nb == self.visitor.never_breaks(),
                nb ==> vis.never_breaks() && !stopped,
                !stopped ==> queue@.len() == 0 && (forall|v: int|
                    0 <= v < n ==> !((#[trigger] color@[v]) is Gray)) && blacks_closed(g, color@),
                nb ==> forall|v: int|
                    0 <= v < n ==> ((#[trigger] color@[v]) is Black <==> exists|j: int|
                        0 <= j < k && connected_pair(g, (#[trigger] roots@[j]) as int, v)),
                nb ==> hs == h0.push(TraverseEvent::Start) && trace_roots(
                    g,
                    roots@,
                    k as int,
                    color@,
                    vis.history(),
                ) == trace_roots(g, roots@, 0, aw, hs),
            decreases roots@.len() - k,
        {
            let r = roots[k];
            let ghost c0 = color@;
            let ghost hk = vis.history();
            if color.get(r) == Color::White {
                color.set(r, Color::Gray);
                queue.push_back((None, r));
                proof {
                    assert(queue@[0] == (Option::<G::Edge>::None, r));
                    assert forall|kk: int|
                        0 <= kk < queue@.len() implies entry_ok(g, color@, #[trigger] queue@[kk]) by {
                    }
                    assert forall|v: int|
                        0 <= v < color@.len() && (#[trigger] color@[v]) is Gray implies exists|
                        kk: int,
                    |
                        0 <= kk < queue@.len() && (#[trigger] queue@[kk]).1 as int == v by {
                        assert(v == r as int);
                        assert(queue@[0].1 as int == v);
                    }
                    assert forall|v: int, i: int|
                        0 <= v < g.spec_n() && color@[v] is Black && 0 <= i < g.spec_out_degree(v)
                            implies #[trigger] nbr_nonwhite(g, color@, v, i) by {
                        assert(c0[v] is Black);
                        assert(nbr_nonwhite(g, c0, v, i));
                    }
                }
                let ghost cin = color@;
                let ghost qin = queue@;
                let ghost hin = vis.history();
                if vis.discover_root_vertex(g, r) == Control::Break {
                    stopped = true;
                } else if vis.discover_vertex(g, r) == Control::Break {
                    stopped = true;
                } else if bfs_visit(g, &mut color, &mut queue, &mut vis) == Control::Break {
                    stopped = true;
                } else if vis.finish_root_vertex(g, r) == Control::Break {
                    stopped = true;
                }
                proof {
                    if nb {
                        assert(!stopped);
                        lemma_run_cover_step(g, roots@, k as int, c0, cin, color@, qin);
                        // The body performed exactly one unfolding of the
                        // replay: re-rooting, the two discovery events, one
                        // drained component, the closing root event.
                        assert(qin =~= seq![(Option::<G::Edge>::None, r)]);
                        assert(hin == hk);
                        assert(cin == c0.update(r as int, Color::Gray));
                        let hd = hin.push(TraverseEvent::DiscoverRootVertex(r)).push(
                            TraverseEvent::DiscoverVertex(r),
                        );
                        assert(trace_roots(g, roots@, k as int, c0, hk) == trace_roots(
                            g,
                            roots@,
                            k as int + 1,
                            trace_drain(g, cin, qin, hd).0,
                            trace_drain(g, cin, qin, hd).1.push(
                                TraverseEvent::FinishRootVertex(r),
                            ),
                        ));
                    }
                }
            } else {
                proof {
                    if nb {
                        assert(!(color@[r as int] is Gray) && !(color@[r as int] is White));
                        assert(color@[r as int] is Black);
                        lemma_run_cover_skip(g, roots@, k as int, color@);
                        // An already-finished root fires nothing: the
                        // replay skips it too.
                        assert(trace_roots(g, roots@, k as int, color@, vis.history())
                            == trace_roots(g, roots@, k as int + 1, color@, vis.history()));
                    }
                }
            }
            k = k + 1;
        }
        let ghost hpre = vis.history();
        let c = vis.finish(g);
        proof {
            if nb {
                // Compose: the sweep's events ride on the caller's history
                // prefix, and the closing event completes the trace.
                assert(trace_roots(g, roots@, k as int, color@, hpre) == (color@, hpre));
                assert(hs =~= h0 + seq![TraverseEvent::<G::Edge>::Start]);
                lemma_trace_roots_prefix(
                    g,
                    roots@,
                    0,
                    aw,
                    h0,
                    seq![TraverseEvent::<G::Edge>::Start],
                );
                let t = trace_roots(
                    g,
                    roots@,
                    0,
                    aw,
                    seq![TraverseEvent::<G::Edge>::Start],
                ).1;
                assert(hpre == h0 + t);
                assert(vis.history() == (h0 + t).push(TraverseEvent::Finish));
                assert((h0 + t).push(TraverseEvent::<G::Edge>::Finish) =~= h0 + t.push(
                    TraverseEvent::Finish,
                ));
                assert(aw == Seq::new(
                    if g.spec_n() >= 0 {
                        g.spec_n() as nat
                    } else {
                        0
                    },
                    |v: int| Color::White,
                ));
            }
        }
        (c, vis, color)
    }
}

/// A visitor that observes nothing and never breaks: the default of a
/// freshly configured traversal.  Only its event history, a ghost value,
/// records what it was shown.
pub struct EmptyVisitor<E> {
    /// The events shown so far.
    pub history: Ghost<Seq<TraverseEvent<E>>>,
}

impl<E> EmptyVisitor<E> {
    /// A fresh observer with an empty history.
    pub fn new() -> (v: Self)
        ensures
            v.history@ == Seq::<TraverseEvent<E>>::empty(),
    {
        EmptyVisitor { history: Ghost(Seq::empty()) }
    }
}

impl<G: Incidence> Visitor<G> for EmptyVisitor<G::Edge> {
    open spec fn inv(&self, g: &G) -> bool {
        true
    }

    open spec fn never_breaks(&self) -> bool {
        true
    }

    open spec fn history(&self) -> Seq<TraverseEvent<G::Edge>> {
        self.history@
    }

    fn start(&mut self, g: &G) -> (c: Control) {
        self.history = Ghost(self.history@.push(TraverseEvent::Start));
        Control::Continue
    }

    fn discover_root_vertex(&mut self, g: &G, v: usize) -> (c: Control) {
        self.history = Ghost(self.history@.push(TraverseEvent::DiscoverRootVertex(v)));
        Control::Continue
    }

    fn discover_vertex(&mut self, g: &G, v: usize) -> (c: Control) {
        self.history = Ghost(self.history@.push(TraverseEvent::DiscoverVertex(v)));
        Control::Continue
    }

    fn discover_edge(&mut self, g: &G, e: G::Edge) -> (c: Control) {
        self.history = Ghost(self.history@.push(TraverseEvent::DiscoverEdge(e)));
        Control::Continue
    }

    fn discover_tree_edge(&mut self, g: &G, e: G::Edge) -> (c: Control) {
        self.history = Ghost(self.history@.push(TraverseEvent::DiscoverTreeEdge(e)));
        Control::Continue
    }

    fn discover_back_edge(&mut self, g: &G, e: G::Edge) -> (c: Control) {
        self.history = Ghost(self.history@.push(TraverseEvent::DiscoverBackEdge(e)));
        Control::Continue
    }

    fn discover_cross_or_forward_edge(&mut self, g: &G, e: G::Edge) -> (c: Control) {
        self.history = Ghost(self.history@.push(TraverseEvent::DiscoverCrossOrForwardEdge(e)));
        Control::Continue
    }

    fn finish_edge(&mut self, g: &G, e: G::Edge) -> (c: Control) {
        self.history = Ghost(self.history@.push(TraverseEvent::FinishEdge(e)));
        Control::Continue
    }

    fn finish_tree_edge(&mut self, g: &G, e: G::Edge) -> (c: Control) {
        self.history = Ghost(self.history@.push(TraverseEvent::FinishTreeEdge(e)));
        Control::Continue
    }

    fn finish_vertex(&mut self, g: &G, v: usize) -> (c: Control) {
        self.history = Ghost(self.history@.push(TraverseEvent::FinishVertex(v)));
        Control::Continue
    }

    fn finish_root_vertex(&mut self, g: &G, v: usize) -> (c: Control) {
        self.history = Ghost(self.history@.push(TraverseEvent::FinishRootVertex(v)));
        Control::Continue
    }

    fn finish(&mut self, g: &G) -> (c: Control) {
        self.history = Ghost(self.history@.push(TraverseEvent::Finish));
        Control::Continue
    }
}

/// Entry points for breadth first traversal, offered by every graph with
/// the incidence capability.
pub trait Bfs: Incidence {
    /// Traverse the whole graph, every vertex attempted as a root in
    /// increasing order.  A visitor that never breaks gets a completed run
    /// and is shown exactly the replayed event sequence.
    fn bfs<V: Visitor<Self>>(&self, vis: V) -> (r: (Control, V))
        requires
            self.wf(),
            vis.inv(self),
        ensures
            r.1.inv(self),
            vis.never_breaks() ==> r.0 is Continue && r.1.never_breaks(),
            vis.never_breaks() ==> r.1.history() == vis.history() + bfs_trace(
                self,
                Seq::new(self.spec_n() as nat, |i: int| i as usize),
            ),
    ;

    /// Traverse only the component of `root`.
    fn bfs_with_root<V: Visitor<Self>>(&self, root: usize, vis: V) -> (r: (Control, V))
        requires
            self.wf(),
            vis.inv(self),
            root < self.spec_n(),
        ensures
            r.1.inv(self),
            vis.never_breaks() ==> r.0 is Continue && r.1.never_breaks(),
            vis.never_breaks() ==> r.1.history() == vis.history() + bfs_trace(
                self,
                seq![root],
            ),
    ;

    /// A traversal of this graph with the defaults: every vertex a root, a
    /// visitor that observes nothing.  Replace parts before running.
    fn bfs_(&self) -> (alg: BfsAlg<Self, EmptyVisitor<Self::Edge>>)
        requires
            self.wf(),
        ensures
            alg.wf(),
            alg.graph == self,
    ;
}

impl<G: Incidence> Bfs for G {
    fn bfs<V: Visitor<G>>(&self, vis: V) -> (r: (Control, V)) {
        let run = BfsAlg::new(self, vis).run();
        (run.0, run.1)
    }

    fn bfs_with_root<V: Visitor<G>>(&self, root: usize, vis: V) -> (r: (Control, V)) {
        let alg = BfsAlg::new(self, vis).root(root);
        proof {
            assert(alg.roots@ =~= seq![root]);
        }
        let run = alg.run();
        (run.0, run.1)
    }

    fn bfs_(&self) -> (alg: BfsAlg<G, EmptyVisitor<G::Edge>>) {
        BfsAlg::new(self, EmptyVisitor::new())
    }
}

/// A visitor that records every event, in order.  Never breaks: the trace
/// of a full run is a pure, reproducible function of the graph and the
/// roots.
pub struct TraceVisitor<E> {
    /// The events seen so far.
    pub events: Vec<TraverseEvent<E>>,
}

impl<E> TraceVisitor<E> {
    /// A visitor with an empty trace.
    pub fn new() -> (v: Self)
        ensures
            v.events@.len() == 0,
    {
        TraceVisitor { events: Vec::new() }
    }
}

impl<G: Incidence> Visitor<G> for TraceVisitor<G::Edge> {
    open spec fn inv(&self, g: &G) -> bool {
        true
    }

    open spec fn never_breaks(&self) -> bool {
        true
    }

    open spec fn history(&self) -> Seq<TraverseEvent<G::Edge>> {
        self.events@
    }

    fn start(&mut self, g: &G) -> (c: Control) {
        self.events.push(TraverseEvent::Start);
        Control::Continue
    }

    fn discover_root_vertex(&mut self, g: &G, v: usize) -> (c: Control) {
        self.events.push(TraverseEvent::DiscoverRootVertex(v));
        Control::Continue
    }

    fn discover_vertex(&mut self, g: &G, v: usize) -> (c: Control) {
        self.events.push(TraverseEvent::DiscoverVertex(v));
        Control::Continue
    }

    fn discover_edge(&mut self, g: &G, e: G::Edge) -> (c: Control) {
        self.events.push(TraverseEvent::DiscoverEdge(e));
        Control::Continue
    }

    fn discover_tree_edge(&mut self, g: &G, e: G::Edge) -> (c: Control) {
        self.events.push(TraverseEvent::DiscoverTreeEdge(e));
        Control::Continue
    }

    fn discover_back_edge(&mut self, g: &G, e: G::Edge) -> (c: Control) {
        self.events.push(TraverseEvent::DiscoverBackEdge(e));
        Control::Continue
    }

    fn discover_cross_or_forward_edge(&mut self, g: &G, e: G::Edge) -> (c: Control) {
        self.events.push(TraverseEvent::DiscoverCrossOrForwardEdge(e));
        Control::Continue
    }

    fn finish_edge(&mut self, g: &G, e: G::Edge) -> (c: Control) {
        self.events.push(TraverseEvent::FinishEdge(e));
        Control::Continue
    }

    fn finish_tree_edge(&mut self, g: &G, e: G::Edge) -> (c: Control) {
        self.events.push(TraverseEvent::FinishTreeEdge(e));
        Control::Continue
    }

    fn finish_vertex(&mut self, g: &G, v: usize) -> (c: Control) {
        self.events.push(TraverseEvent::FinishVertex(v));
        Control::Continue
    }

    fn finish_root_vertex(&mut self, g: &G, v: usize) -> (c: Control) {
        self.events.push(TraverseEvent::FinishRootVertex(v));
        Control::Continue
    }

    fn finish(&mut self, g: &G) -> (c: Control) {
        self.events.push(TraverseEvent::Finish);
        Control::Continue
    }
}

/// A visitor that allows a bounded number of events and then stops the
/// traversal: each hook spends one unit of budget, and a hook finding the
/// budget empty answers `Break`.
pub struct EventLimit<E> {
    /// How many further events are allowed.
    pub budget: usize,
    /// The events shown so far.
    pub history: Ghost<Seq<TraverseEvent<E>>>,
}

impl<E> EventLimit<E> {
    /// A visitor allowing `budget` events.
    pub fn new(budget: usize) -> (v: Self)
        ensures
            v.budget == budget,
            v.history@ == Seq::<TraverseEvent<E>>::empty(),
    {
        EventLimit { budget, history: Ghost(Seq::empty()) }
    }

    /// Spend one unit; report whether the budget was already empty.
    fn spend(&mut self) -> (c: Control)
        ensures
            old(self).budget == 0 ==> c is Break && final(self).budget == 0,
            old(self).budget > 0 ==> c is Continue && final(self).budget == old(self).budget
                - 1,
            final(self).history == old(self).history,
    {
        if self.budget == 0 {
            Control::Break
        } else {
            self.budget = self.budget - 1;
            Control::Continue
        }
    }
}

impl<G: Incidence> Visitor<G> for EventLimit<G::Edge> {
    open spec fn inv(&self, g: &G) -> bool {
        true
    }

    open spec fn never_breaks(&self) -> bool {
        false
    }

    open spec fn history(&self) -> Seq<TraverseEvent<G::Edge>> {
        self.history@
    }

    fn start(&mut self, g: &G) -> (c: Control)
        ensures
            old(self).budget == 0 ==> c is Break && final(self).budget == 0,
            old(self).budget > 0 ==> c is Continue && final(self).budget == old(self).budget
                - 1,
    {
        self.history = Ghost(self.history@.push(TraverseEvent::Start));
        self.spend()
    }

    fn discover_root_vertex(&mut self, g: &G, v: usize) -> (c: Control)
        ensures
            old(self).budget == 0 ==> c is Break && final(self).budget == 0,
            old(self).budget > 0 ==> c is Continue && final(self).budget == old(self).budget
                - 1,
    {
        self.history = Ghost(self.history@.push(TraverseEvent::DiscoverRootVertex(v)));
        self.spend()
    }

    fn discover_vertex(&mut self, g: &G, v: usize) -> (c: Control)
        ensures
            old(self).budget == 0 ==> c is Break && final(self).budget == 0,
            old(self).budget > 0 ==> c is Continue && final(self).budget == old(self).budget
                - 1,
    {
        self.history = Ghost(self.history@.push(TraverseEvent::DiscoverVertex(v)));
        self.spend()
    }

    fn discover_edge(&mut self, g: &G, e: G::Edge) -> (c: Control)
        ensures
            old(self).budget == 0 ==> c is Break && final(self).budget == 0,
            old(self).budget > 0 ==> c is Continue && final(self).budget == old(self).budget
                - 1,
    {
        self.history = Ghost(self.history@.push(TraverseEvent::DiscoverEdge(e)));
        self.spend()
    }

    fn discover_tree_edge(&mut self, g: &G, e: G::Edge) -> (c: Control)
        ensures
            old(self).budget == 0 ==> c is Break && final(self).budget == 0,
            old(self).budget > 0 ==> c is Continue && final(self).budget == old(self).budget
                - 1,
    {
        self.history = Ghost(self.history@.push(TraverseEvent::DiscoverTreeEdge(e)));
        self.spend()
    }

    fn discover_back_edge(&mut self, g: &G, e: G::Edge) -> (c: Control)
        ensures
            old(self).budget == 0 ==> c is Break && final(self).budget == 0,
            old(self).budget > 0 ==> c is Continue && final(self).budget == old(self).budget
                - 1,
    {
        self.history = Ghost(self.history@.push(TraverseEvent::DiscoverBackEdge(e)));
        self.spend()
    }

    fn discover_cross_or_forward_edge(&mut self, g: &G, e: G::Edge) -> (c: Control)
        ensures
            old(self).budget == 0 ==> c is Break && final(self).budget == 0,
            old(self).budget > 0 ==> c is Continue && final(self).budget == old(self).budget
                - 1,
    {
        self.history = Ghost(self.history@.push(TraverseEvent::DiscoverCrossOrForwardEdge(e)));
        self.spend()
    }

    fn finish_edge(&mut self, g: &G, e: G::Edge) -> (c: Control)
        ensures
            old(self).budget == 0 ==> c is Break && final(self).budget == 0,
            old(self).budget > 0 ==> c is Continue && final(self).budget == old(self).budget
                - 1,
    {
        self.history = Ghost(self.history@.push(TraverseEvent::FinishEdge(e)));
        self.spend()
    }

    fn finish_tree_edge(&mut self, g: &G, e: G::Edge) -> (c: Control)
        ensures
            old(self).budget == 0 ==> c is Break && final(self).budget == 0,
            old(self).budget > 0 ==> c is Continue && final(self).budget == old(self).budget
                - 1,
    {
        self.history = Ghost(self.history@.push(TraverseEvent::FinishTreeEdge(e)));
        self.spend()
    }

    fn finish_vertex(&mut self, g: &G, v: usize) -> (c: Control)
        ensures
            old(self).budget == 0 ==> c is Break && final(self).budget == 0,
            old(self).budget > 0 ==> c is Continue && final(self).budget == old(self).budget
                - 1,
    {
        self.history = Ghost(self.history@.push(TraverseEvent::FinishVertex(v)));
        self.spend()
    }

    fn finish_root_vertex(&mut self, g: &G, v: usize) -> (c: Control)
        ensures
            old(self).budget == 0 ==> c is Break && final(self).budget == 0,
            old(self).budget > 0 ==> c is Continue && final(self).budget == old(self).budget
                - 1,
    {
        self.history = Ghost(self.history@.push(TraverseEvent::FinishRootVertex(v)));
        self.spend()
    }

    fn finish(&mut self, g: &G) -> (c: Control)
        ensures
            old(self).budget == 0 ==> c is Break && final(self).budget == 0,
            old(self).budget > 0 ==> c is Continue && final(self).budget == old(self).budget
                - 1,
    {
        self.history = Ghost(self.history@.push(TraverseEvent::Finish));
        self.spend()
    }
}

} // verus!
