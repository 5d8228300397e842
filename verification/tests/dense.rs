//! The dense representations: codec round trips, the complete graph's
//! constant-time surface, the out-neighbor cursor, and the pair-based
//! representation with its triangular edge index.

use graphkit::codec::DirectedEdge;
use graphkit::codec::EdgeImpl;
use graphkit::codec::UndirectedEdge;
use graphkit::complete::COutNeighborIter;
use graphkit::complete::CompleteDigraph;
use graphkit::complete::CompleteGraph;
use graphkit::complete::MaxNone;
use graphkit::pairgraph::CompleteEdge;
use graphkit::pairgraph::CompleteGraph as PairGraph;

fn assert_edge<E: EdgeImpl + std::fmt::Debug + Copy>(n: u32, u: u32, v: u32) {
    let e = E::new(n, u, v);
    let r = E::reverse(e, n);
    assert_eq!((u, v), E::ends(e, n), "n = {}, e = {:?}", n, e);
    assert_eq!((v, u), E::ends(r, n), "n = {}, e = {:?}, r = {:?}", n, e, r);
}

#[test]
fn out_neighbor_nth() {
    let iter = |source, n, nth| COutNeighborIter::new(source, n).nth(nth);
    assert_eq!(Some(0), iter(2, 4, 0));
    assert_eq!(Some(1), iter(2, 4, 1));
    assert_eq!(Some(3), iter(2, 4, 2));
    assert_eq!(None, iter(2, 4, 3));
    assert_eq!(None, iter(2, 4, 4));

    assert_eq!(Some(1), iter(0, 4, 0));
    assert_eq!(Some(2), iter(0, 4, 1));
    assert_eq!(Some(3), iter(0, 4, 2));
    assert_eq!(None, iter(0, 4, 3));
    assert_eq!(None, iter(0, 4, 4));

    assert_eq!(Some(0), iter(3, 4, 0));
    assert_eq!(Some(1), iter(3, 4, 1));
    assert_eq!(Some(2), iter(3, 4, 2));
    assert_eq!(None, iter(3, 4, 3));
    assert_eq!(None, iter(3, 4, 4));
}

#[test]
fn out_neighbor_nth_matches_stepping() {
    for source in 0..5u32 {
        for k in 0..6usize {
            let mut stepped = COutNeighborIter::new(source, 5);
            for _ in 0..k {
                stepped.next();
            }
            let by_steps = stepped.next();
            let mut random = COutNeighborIter::new(source, 5);
            assert_eq!(by_steps, random.nth(k));
        }
    }
}

#[test]
fn test_large_edges() {
    let g = CompleteGraph::new(100_000);
    let e = g.get_edge_by_ends(99_999, 99_998).unwrap();
    assert_eq!((99_999, 99_998), g.end_vertices(e));
}

#[test]
fn edge_impl() {
    for n in 2..10 {
        for u in 0..n {
            for v in (u + 1)..n {
                assert_edge::<UndirectedEdge>(n, u, v);
                assert_edge::<UndirectedEdge>(n, v, u);

                assert_edge::<DirectedEdge>(n, u, v);
                assert_edge::<DirectedEdge>(n, v, u);
            }
        }
    }
}

#[test]
fn undirected_index_stable_under_reversal() {
    for n in 2..30 {
        for u in 0..n {
            for v in 0..n {
                if u != v {
                    let e = UndirectedEdge::new(n, u, v);
                    let r = e.reverse(n);
                    assert_eq!(e.to_index(), r.to_index());
                    assert_eq!(e, r);
                }
            }
        }
    }
}

#[test]
fn directed_reverse_changes_index() {
    let e = DirectedEdge::new(5, 1, 3);
    let r = e.reverse(5);
    assert_ne!(e.to_index(), r.to_index());
    assert_eq!((3, 1), r.ends(5));
}

#[test]
fn edge_from_index_round_trip() {
    for n in 2..12u32 {
        let g = CompleteGraph::new(n);
        let m = g.num_edges();
        for i in 0..m {
            let e = <UndirectedEdge as EdgeImpl>::from_index(i);
            assert_eq!(i, e.to_index());
            let (u, v) = g.end_vertices(e);
            assert_eq!(i, UndirectedEdge::new(n, u, v).to_index());
        }
        let d = CompleteDigraph::new(n);
        for i in 0..d.num_edges() {
            let e = <DirectedEdge as EdgeImpl>::from_index(i);
            let (u, v) = d.end_vertices(e);
            assert_eq!(i, DirectedEdge::new(n, u, v).to_index());
        }
    }
}

#[test]
fn complete_graph_surface() {
    let g = CompleteGraph::new(5);
    assert_eq!(5, g.num_vertices());
    assert_eq!(10, g.num_edges());
    assert_eq!(vec![0, 1, 2, 3, 4], g.vertices());
    assert_eq!(4, g.out_degree(2));
    assert!(g.get_edge_by_ends(1, 1).is_none());
    assert!(g.get_edge_by_ends(0, 5).is_none());
    assert!(g.get_edge_by_ends(5, 0).is_none());
    let e = g.get_edge_by_ends(3, 1).unwrap();
    assert_eq!(3, g.source(e));
    assert_eq!(1, g.target(e));
    assert_eq!((1, 3), g.end_vertices(g.reverse(e)));
    assert_eq!((1, 3), g.end_vertices(g.get_reverse(e).unwrap()));

    let d = CompleteDigraph::new(5);
    assert_eq!(20, d.num_edges());

    let empty = CompleteGraph::new(0);
    assert_eq!(0, empty.num_edges());
    assert!(empty.choose_vertex(17).is_none());
    assert!(empty.choose_edge(17, false).is_none());
}

#[test]
fn complete_out_edges_enumerate_neighbors() {
    let g = CompleteGraph::new(6);
    let mut it = g.out_edges(2);
    let mut seen = Vec::new();
    assert_eq!(5, it.len());
    while let Some(e) = it.next() {
        let (u, v) = g.end_vertices(e);
        assert_eq!(2, u);
        seen.push(v);
    }
    assert_eq!(vec![0, 1, 3, 4, 5], seen);
}

#[test]
fn complete_choose_is_deterministic_in_the_draw() {
    let g = CompleteGraph::new(7);
    assert_eq!(Some(3), g.choose_vertex(10));
    let e = g.choose_out_edge(4, 9).unwrap();
    let (u, v) = g.end_vertices(e);
    assert_eq!(4, u);
    assert_ne!(4, v);
    let n1 = g.choose_out_neighbor(0, 0).unwrap();
    assert_ne!(0, n1);
    assert!(g.choose_edge(3, true).is_some());
    let single = CompleteGraph::new(1);
    assert!(single.choose_out_edge(0, 5).is_none());
}

#[test]
fn sentinel_edge_is_out_of_range() {
    let none = MaxNone::<UndirectedEdge>::none();
    assert_eq!(usize::MAX / 2, none.to_index());
    let dnone = MaxNone::<DirectedEdge>::none();
    assert_eq!(usize::MAX, dnone.to_index());
    let g = CompleteGraph::new(1000);
    for i in 0..g.num_edges() {
        assert_ne!(i, none.to_index());
    }
}

#[test]
fn test_edges() {
    for n in 1..100 {
        let g = PairGraph::new(n);
        let mut r = vec![];
        for u in 0..n {
            for v in (u + 1)..n {
                r.push((u, v));
            }
        }
        let ind = g.prop_edge_index();
        let mut it = g.edges();
        let mut i = 0usize;
        while let Some(e) = it.next() {
            assert_eq!(i, ind.to_index(e));
            assert_eq!(i, ind.to_index(g.reverse(e)));
            assert_eq!(r[i].0, g.source(e));
            assert_eq!(r[i].1, g.target(e));
            i += 1;
        }
        assert_eq!(g.num_edges(), i);
    }
}

#[test]
fn pair_graph_surface() {
    let g = PairGraph::new(5);
    assert_eq!(5, g.num_vertices());
    assert_eq!(10, g.num_edges());
    assert_eq!(4, g.degree(3));
    assert_eq!(vec![0, 1, 2, 3, 4], g.vertices());
    let e = CompleteEdge::new(1, 4);
    assert_eq!(e, g.reverse(e));
    let mut inc = g.inc_edges(2);
    let mut targets = Vec::new();
    while let Some(e) = inc.next() {
        assert_eq!(2, g.source(e));
        targets.push(g.target(e));
    }
    assert_eq!(vec![0, 1, 3, 4], targets);
    assert_eq!(3, g.choose_vertex(13));
    let c = g.choose_inc_edge(2, 2);
    assert_eq!(2, c.u);
    assert_ne!(2, c.v);
}

#[test]
fn complete_edges_enumerate_each_edge_once() {
    let g = CompleteGraph::new(6);
    let mut it = g.edges();
    assert_eq!(15, it.len());
    let mut seen = Vec::new();
    while let Some(e) = it.next() {
        let (u, v) = g.end_vertices(e);
        assert!(u < v);
        seen.push((u, v));
    }
    assert_eq!(15, seen.len());
    for a in 0..seen.len() {
        for b in (a + 1)..seen.len() {
            assert_ne!(seen[a], seen[b]);
        }
    }
    let d = CompleteDigraph::new(4);
    let mut count = 0;
    let mut itd = d.edges();
    while let Some(_) = itd.next() {
        count += 1;
    }
    assert_eq!(12, count);
}
