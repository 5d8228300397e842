//! The traversal engine: the exact event trace of a fixed graph, early
//! termination, and the diameter derived from distance-recording runs.

use graphkit::distances::Distances;
use graphkit::distances::RecordDistance;
use graphkit::distances::shortest_distances;
use graphkit::props::Color;
use graphkit::props::PropMap;
use graphkit::traverse::bfs_visit;
use graphkit::traverse::NewBfsQueue;
use graphkit::graphs::Incidence;
use graphkit::static_graph::StaticEdge;
use graphkit::static_graph::StaticGraph;
use graphkit::static_graph::StaticGraphBuilder;
use graphkit::traverse::Bfs;
use graphkit::traverse::BfsAlg;
use graphkit::traverse::Control;
use graphkit::traverse::TraceVisitor;
use graphkit::traverse::TraverseEvent;

fn graph(n: usize, edges: &[(usize, usize)]) -> StaticGraph {
    let mut b = StaticGraphBuilder::new(n, edges.len());
    for &(u, v) in edges {
        b.add_edge(u, v);
    }
    b.finalize()
}

fn new() -> StaticGraph {
    //    1
    //  / | \         4
    // 0  |  3      /   \
    //  \ | /      5 --- 6
    //    2
    graph(
        7,
        &[(0, 1), (0, 2), (1, 2), (1, 3), (2, 3), (4, 5), (4, 6), (5, 6)],
    )
}

fn edge_by_ends(g: &StaticGraph, u: usize, v: usize) -> StaticEdge {
    for e in g.edges() {
        let (x, y) = (g.source(e), g.target(e));
        if u == x && v == y {
            return e;
        } else if u == y && v == x {
            return g.reverse(e);
        }
    }
    panic!()
}

#[test]
fn events() {
    let g = new();
    let e = |x: usize, y: usize| edge_by_ends(&g, x, y);
    let expected = vec![
        TraverseEvent::Start,
        TraverseEvent::DiscoverRootVertex(0),
        TraverseEvent::DiscoverVertex(0),
        TraverseEvent::DiscoverEdge(e(0, 1)),
        TraverseEvent::DiscoverTreeEdge(e(0, 1)),
        TraverseEvent::DiscoverVertex(1),
        TraverseEvent::DiscoverEdge(e(0, 2)),
        TraverseEvent::DiscoverTreeEdge(e(0, 2)),
        TraverseEvent::DiscoverVertex(2),
        TraverseEvent::FinishVertex(0),
        TraverseEvent::DiscoverEdge(e(1, 2)),
        TraverseEvent::DiscoverBackEdge(e(1, 2)),
        TraverseEvent::FinishEdge(e(1, 2)),
        TraverseEvent::DiscoverEdge(e(1, 3)),
        TraverseEvent::DiscoverTreeEdge(e(1, 3)),
        TraverseEvent::DiscoverVertex(3),
        TraverseEvent::FinishVertex(1),
        TraverseEvent::FinishTreeEdge(e(0, 1)),
        TraverseEvent::FinishEdge(e(0, 1)),
        TraverseEvent::DiscoverEdge(e(2, 3)),
        TraverseEvent::DiscoverBackEdge(e(2, 3)),
        TraverseEvent::FinishEdge(e(2, 3)),
        TraverseEvent::FinishVertex(2),
        TraverseEvent::FinishTreeEdge(e(0, 2)),
        TraverseEvent::FinishEdge(e(0, 2)),
        TraverseEvent::FinishVertex(3),
        TraverseEvent::FinishTreeEdge(e(1, 3)),
        TraverseEvent::FinishEdge(e(1, 3)),
        TraverseEvent::FinishRootVertex(0),
        TraverseEvent::DiscoverRootVertex(4),
        TraverseEvent::DiscoverVertex(4),
        TraverseEvent::DiscoverEdge(e(4, 5)),
        TraverseEvent::DiscoverTreeEdge(e(4, 5)),
        TraverseEvent::DiscoverVertex(5),
        TraverseEvent::DiscoverEdge(e(4, 6)),
        TraverseEvent::DiscoverTreeEdge(e(4, 6)),
        TraverseEvent::DiscoverVertex(6),
        TraverseEvent::FinishVertex(4),
        TraverseEvent::DiscoverEdge(e(5, 6)),
        TraverseEvent::DiscoverBackEdge(e(5, 6)),
        TraverseEvent::FinishEdge(e(5, 6)),
        TraverseEvent::FinishVertex(5),
        TraverseEvent::FinishTreeEdge(e(4, 5)),
        TraverseEvent::FinishEdge(e(4, 5)),
        TraverseEvent::FinishVertex(6),
        TraverseEvent::FinishTreeEdge(e(4, 6)),
        TraverseEvent::FinishEdge(e(4, 6)),
        TraverseEvent::FinishRootVertex(4),
        TraverseEvent::Finish,
    ];

    let (c, vis) = g.bfs(TraceVisitor::new());
    assert_eq!(Control::Continue, c);
    assert_eq!(expected, vis.events);
}

#[test]
fn events_are_reproducible() {
    let g = new();
    let (_, first) = g.bfs(TraceVisitor::new());
    let (_, second) = g.bfs(TraceVisitor::new());
    assert_eq!(first.events, second.events);
}

#[test]
fn break_stops_the_whole_traversal() {
    let g = new();
    // The second event is the first root discovery: the run stops there,
    // before any vertex of the second component is seen.
    let (c, vis) = g.bfs(graphkit::traverse::EventLimit::new(1));
    assert_eq!(Control::Break, c);
    assert_eq!(0, vis.budget);
    // With a budget beyond the full trace the run finishes.
    let (c2, _) = g.bfs(graphkit::traverse::EventLimit::new(1000));
    assert_eq!(Control::Continue, c2);
}

#[test]
fn bfs_with_root_covers_one_component() {
    let g = new();
    let (c, vis) = g.bfs_with_root(4, TraceVisitor::new());
    assert_eq!(Control::Continue, c);
    let roots: Vec<usize> = vis
        .events
        .iter()
        .filter_map(|ev| match ev {
            TraverseEvent::DiscoverRootVertex(v) => Some(*v),
            _ => None,
        })
        .collect();
    assert_eq!(vec![4], roots);
}

#[test]
fn diameter_of_fixed_graphs() {
    // A path on four vertices has diameter three.
    let path = graph(4, &[(0, 1), (1, 2), (2, 3)]);
    assert_eq!(3, path.diameter());
    // A triangle has diameter one.
    let tri = graph(3, &[(0, 1), (1, 2), (0, 2)]);
    assert_eq!(1, tri.diameter());
    // The empty graph has diameter zero.
    let empty = graph(0, &[]);
    assert_eq!(0, empty.diameter());
    // Two components: the larger one decides.
    let two = graph(5, &[(0, 1), (2, 3), (3, 4)]);
    assert_eq!(2, two.diameter());
}

#[test]
fn bfs_visit_drains_a_prepared_frontier() {
    let g = new();
    let mut color = PropMap::with_default(g.num_vertices(), Color::White);
    let mut queue = NewBfsQueue.build();
    color.set(4, Color::Gray);
    queue.push_back((None, 4usize));
    let mut vis = TraceVisitor::new();
    let c = bfs_visit(&g, &mut color, &mut queue, &mut vis);
    assert_eq!(Control::Continue, c);
    assert!(queue.is_empty());
    // The component of vertex 4 is finished, the other one untouched.
    for v in 4..7 {
        assert_eq!(Color::Black, color.get(v));
    }
    for v in 0..4 {
        assert_eq!(Color::White, color.get(v));
    }
}

#[test]
fn configured_run_matches_the_entry_point() {
    let g = new();
    let (_, direct) = g.bfs(TraceVisitor::new());
    let (_, configured, _) = g.bfs_().visitor(TraceVisitor::new()).run();
    assert_eq!(direct.events, configured.events);
    let (_, rooted, _) = BfsAlg::new(&g, TraceVisitor::new()).root(0).run();
    let (_, rooted_entry) = g.bfs_with_root(0, TraceVisitor::new());
    assert_eq!(rooted.events, rooted_entry.events);
}

#[test]
fn record_distance_through_the_engine() {
    let g = new();
    let (c, vis) = g.bfs_with_root(0, RecordDistance::new(g.num_vertices()));
    assert_eq!(Control::Continue, c);
    assert_eq!(0, vis.dist.get(0));
    assert_eq!(1, vis.dist.get(1));
    assert_eq!(1, vis.dist.get(2));
    assert_eq!(2, vis.dist.get(3));
    for v in 4..7 {
        assert_eq!(usize::MAX, vis.dist.get(v));
    }
}

#[test]
fn shortest_distances_are_exact() {
    let g = new();
    let d = shortest_distances(&g, 4);
    assert_eq!(0, d.get(4));
    assert_eq!(1, d.get(5));
    assert_eq!(1, d.get(6));
    for v in 0..4 {
        assert_eq!(usize::MAX, d.get(v));
    }
    let path = graph(5, &[(0, 1), (1, 2), (2, 3), (3, 4)]);
    let dp = shortest_distances(&path, 0);
    for v in 0..5 {
        assert_eq!(v, dp.get(v));
    }
}
