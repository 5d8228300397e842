//! Structural queries and spanning trees: the connectivity, acyclicity and
//! tree predicates over a case table, the builder's layout, Kruskal against
//! its golden output and against Prim, and the low-link cut computation
//! against brute force on generated graphs.

use graphkit::algs::is_connected as generic_is_connected;
use graphkit::complete::CompleteGraph;
use graphkit::cut::count_components;
use graphkit::graphs::Incidence;
use graphkit::cut::cut_edges;
use graphkit::cut::lowlink_cuts;
use graphkit::kruskal::AcceptAll;
use graphkit::kruskal::Kruskal;
use graphkit::kruskal::WeightBelow;
use graphkit::cut::cut_edges_naive;
use graphkit::cut::cut_vertices;
use graphkit::cut::cut_vertices_naive;
use graphkit::parentpointer::ParentPointerTree;
use graphkit::prim::prim;
use graphkit::props::PropMap;
use graphkit::static_graph::StaticEdge;
use graphkit::static_graph::StaticGraph;
use graphkit::static_graph::StaticGraphBuilder;
use graphkit::unionfind::UnionFind;
use graphkit::unionfind::WithUnionFind;

fn graph(n: usize, edges: &[(usize, usize)]) -> StaticGraph {
    let mut b = StaticGraphBuilder::new(n, edges.len());
    for &(u, v) in edges {
        b.add_edge(u, v);
    }
    b.finalize()
}

struct Case {
    g: StaticGraph,
    is_connected: bool,
    is_acyclic: bool,
    is_tree: bool,
}

fn cases() -> Vec<Case> {
    vec![
        Case {
            g: graph(0, &[]),
            is_connected: true,
            is_acyclic: true,
            is_tree: true,
        },
        Case {
            g: graph(1, &[]),
            is_connected: true,
            is_acyclic: true,
            is_tree: true,
        },
        Case {
            g: graph(2, &[]),
            is_connected: false,
            is_acyclic: true,
            is_tree: false,
        },
        Case {
            g: graph(2, &[(0, 1)]),
            is_connected: true,
            is_acyclic: true,
            is_tree: true,
        },
        Case {
            g: graph(3, &[(2, 1)]),
            is_connected: false,
            is_acyclic: true,
            is_tree: false,
        },
        Case {
            g: graph(3, &[(2, 1)]),
            is_connected: false,
            is_acyclic: true,
            is_tree: false,
        },
        Case {
            g: graph(3, &[(0, 1), (1, 2)]),
            is_connected: true,
            is_acyclic: true,
            is_tree: true,
        },
        Case {
            g: graph(3, &[(0, 1), (0, 2), (1, 2)]),
            is_connected: true,
            is_acyclic: false,
            is_tree: false,
        },
        Case {
            g: graph(4, &[(0, 1), (0, 2)]),
            is_connected: false,
            is_acyclic: true,
            is_tree: false,
        },
        Case {
            g: graph(4, &[(1, 2), (2, 3), (3, 1)]),
            is_connected: false,
            is_acyclic: false,
            is_tree: false,
        },
    ]
}

#[test]
fn is_connected() {
    for (i, case) in cases().iter().enumerate() {
        assert!(case.is_connected == case.g.is_connected(), "Case {}", i);
    }
}

#[test]
fn is_acyclic() {
    for (i, case) in cases().iter().enumerate() {
        assert!(case.is_acyclic == case.g.is_acyclic(), "Case {}", i);
    }
}

#[test]
fn is_tree() {
    for (i, case) in cases().iter().enumerate() {
        assert!(case.is_tree == case.g.is_tree(), "Case {}", i);
    }
}

#[test]
fn predicates_are_idempotent() {
    for case in cases() {
        let g = case.g;
        assert_eq!(g.is_connected(), g.is_connected());
        assert_eq!(g.is_acyclic(), g.is_acyclic());
        assert_eq!(g.is_tree(), g.is_tree());
    }
}

#[test]
fn builder() {
    let mut builder = StaticGraphBuilder::new(3, 1);

    builder.add_edge(0, 1);
    builder.add_edge(1, 2);

    let g = builder.finalize();
    assert_eq!(3, g.n);
    assert_eq!(vec![0, 1, 1, 2], g.ends);
    assert_eq!(
        vec![
            vec![StaticEdge::new(0)],
            vec![StaticEdge::new_reverse(0), StaticEdge::new(1)],
            vec![StaticEdge::new_reverse(1)]
        ],
        g.inc
    );
}

#[test]
fn kruskal_mst() {
    let g = graph(5, &[(0, 4), (2, 3), (0, 1), (1, 4), (1, 2), (2, 4), (3, 4)]);
    // expected tree
    //      0       1       2               3
    let mut weight = PropMap::with_default(g.num_edges(), 0u64);
    for (j, &w) in [1u64, 2, 3, 4, 5, 6, 7].iter().enumerate() {
        weight.set(j, w);
    }
    let e = g.edges();
    assert_eq!(vec![e[0], e[1], e[2], e[4]], g.kruskal_mst(&weight));
}

/// A small deterministic pseudo-random generator for the sampled checks.
struct Lcg(u64);

impl Lcg {
    fn next(&mut self) -> u64 {
        self.0 = self
            .0
            .wrapping_mul(6364136223846793005)
            .wrapping_add(1442695040888963407);
        self.0 >> 33
    }

    fn below(&mut self, bound: u64) -> u64 {
        self.next() % bound
    }
}

fn random_graph(rng: &mut Lcg, n: usize, m: usize) -> StaticGraph {
    let mut b = StaticGraphBuilder::new(n, m);
    for _ in 0..m {
        let u = rng.below(n as u64) as usize;
        let v = rng.below(n as u64) as usize;
        if u != v {
            b.add_edge(u, v);
        }
    }
    b.finalize()
}

fn sorted(mut v: Vec<usize>) -> Vec<usize> {
    v.sort();
    v
}

#[test]
fn cut_vertices_agree_with_brute_force() {
    let mut rng = Lcg(7);
    for round in 0..40 {
        let n = 2 + (round % 9);
        let m = (rng.below(2 * n as u64 + 1)) as usize;
        let g = random_graph(&mut rng, n, m);
        let expect = sorted(cut_vertices_naive(&g));
        let actual = sorted(cut_vertices(&g));
        assert_eq!(expect, actual, "round {}", round);
    }
    // A path's interior vertices are all cut vertices.
    let path = graph(4, &[(0, 1), (1, 2), (2, 3)]);
    assert_eq!(vec![1, 2], cut_vertices(&path));
    // A cycle has none.
    let cycle = graph(4, &[(0, 1), (1, 2), (2, 3), (3, 0)]);
    assert_eq!(Vec::<usize>::new(), cut_vertices(&cycle));
}

#[test]
fn cut_edges_agree_with_brute_force() {
    let mut rng = Lcg(11);
    for round in 0..40 {
        let n = 2 + (round % 9);
        let m = (rng.below(2 * n as u64 + 1)) as usize;
        let g = random_graph(&mut rng, n, m);
        let expect = sorted(cut_edges_naive(&g));
        let actual = sorted(cut_edges(&g));
        assert_eq!(expect, actual, "round {}", round);
    }
    // Every edge of a path is a bridge; no edge of a cycle is.
    let path = graph(4, &[(0, 1), (1, 2), (2, 3)]);
    assert_eq!(vec![0, 1, 2], sorted(cut_edges(&path)));
    let cycle = graph(3, &[(0, 1), (1, 2), (2, 0)]);
    assert_eq!(Vec::<usize>::new(), cut_edges(&cycle));
}

#[test]
fn component_counts() {
    assert_eq!(0, count_components(&graph(0, &[])));
    assert_eq!(3, count_components(&graph(3, &[])));
    assert_eq!(1, count_components(&graph(3, &[(0, 1), (1, 2)])));
    assert_eq!(2, count_components(&graph(7, &[(0, 1), (1, 2), (4, 5), (5, 6), (6, 3)])));
}

fn random_connected(rng: &mut Lcg, n: usize) -> (StaticGraph, PropMap<u64>) {
    let extra = rng.below(n as u64 + 1) as usize;
    let mut b = StaticGraphBuilder::new(n, n - 1 + extra);
    for v in 1..n {
        let u = rng.below(v as u64) as usize;
        b.add_edge(u, v);
    }
    for _ in 0..extra {
        let u = rng.below(n as u64) as usize;
        let v = rng.below(n as u64) as usize;
        if u != v {
            b.add_edge(u, v);
        }
    }
    let g = b.finalize();
    let m = g.num_edges();
    let mut weight = PropMap::with_default(m, 0u64);
    for j in 0..m {
        weight.set(j, rng.below(50));
    }
    (g, weight)
}

fn total_weight(weight: &PropMap<u64>, edges: &[StaticEdge]) -> u64 {
    let mut sum = 0u64;
    for e in edges {
        sum += weight.get(e.to_index());
    }
    sum
}

fn spanning_subgraph(g: &StaticGraph, edges: &[StaticEdge]) -> StaticGraph {
    let mut b = StaticGraphBuilder::new(g.num_vertices(), edges.len());
    for e in edges {
        let rev = e.reverse();
        b.add_edge(g.ends[rev.0 as usize] as usize, g.ends[e.0 as usize] as usize);
    }
    b.finalize()
}

#[test]
fn mst_agreement() {
    let mut rng = Lcg(23);
    for round in 0..25 {
        let n = 2 + (round % 10);
        let (g, weight) = random_connected(&mut rng, n);
        let kruskal = g.kruskal_mst(&weight);
        let prim_tree = prim(&g, &weight, 0);
        assert_eq!(
            total_weight(&weight, &kruskal),
            total_weight(&weight, &prim_tree),
            "round {}",
            round
        );
        assert_eq!(n - 1, kruskal.len(), "round {}", round);
        assert_eq!(n - 1, prim_tree.len(), "round {}", round);
        assert!(spanning_subgraph(&g, &kruskal).is_tree(), "round {}", round);
        assert!(spanning_subgraph(&g, &prim_tree).is_tree(), "round {}", round);
    }
}

#[test]
fn parent_pointer_tree() {
    let mut t = ParentPointerTree::new(6);
    assert_eq!(6, t.num_vertices());
    assert!(!t.is_connected(0, 1));
    assert_eq!(Some((0, 1)), t.link(0, 1));
    assert_eq!(Some((1, 2)), t.link(1, 2));
    assert!(t.is_connected(0, 2));
    assert!(t.has_edge(0, 1));
    assert!(t.has_edge(1, 2));
    assert!(!t.has_edge(0, 2));
    assert_eq!(None, t.link(2, 0));
    assert_eq!((1, 2), t.ends(&(1, 2)));
    t.cut((1, 2));
    assert!(!t.is_connected(0, 2));
    assert!(t.is_connected(0, 1));
    t.clear();
    assert!(!t.is_connected(0, 1));
    assert_eq!(0, t.find_root(0));
}

#[test]
fn make_root_rewires_one_tree() {
    let mut t = ParentPointerTree::new(5);
    t.link(0, 1);
    t.link(1, 2);
    t.link(3, 4);
    // Re-rooting at 2 moves the whole first tree under it; the other
    // tree keeps its root.
    let other = t.find_root(3);
    t.make_root(2);
    assert_eq!(2, t.find_root(0));
    assert_eq!(2, t.find_root(1));
    assert_eq!(2, t.find_root(2));
    assert_eq!(other, t.find_root(3));
    assert_eq!(other, t.find_root(4));
    assert!(t.is_connected(0, 2));
    assert!(!t.is_connected(0, 3));
}

fn check_groups(ds: &mut UnionFind, num_sets: usize, groups: &[&[usize]]) {
    assert_eq!(num_sets, ds.num_sets());
    for group in groups {
        for &a in *group {
            assert!(ds.in_same_set(group[0], a));
        }
    }
}

#[test]
fn unionfind() {
    let g = graph(5, &[]);
    let mut ds = g.new_unionfind();
    assert_eq!(5, ds.num_sets());
    ds.union(0, 2);
    check_groups(&mut ds, 4, &[&[0, 2]]);
    ds.union(1, 3);
    check_groups(&mut ds, 3, &[&[0, 2], &[1, 3]]);
    ds.union(2, 4);
    check_groups(&mut ds, 2, &[&[0, 2, 4], &[1, 3]]);
    ds.union(3, 4);
    check_groups(&mut ds, 1, &[&[0, 2, 4, 1, 3]]);
    ds.reset(&g);
    assert_eq!(5, ds.num_sets());
    assert!(!ds.in_same_set(0, 2));
}

#[test]
fn complete_graphs_are_connected() {
    for n in 1..8u32 {
        let g = CompleteGraph::new(n);
        assert!(generic_is_connected(&g));
    }
}

#[test]
fn builder_finalize_with_lists() {
    let mut b = StaticGraphBuilder::new(4, 2);
    b.add_edge(0, 1);
    b.add_edge(2, 3);
    let (g, vs, es) = b.finalize_();
    assert_eq!(vec![0, 1, 2, 3], vs);
    assert_eq!(2, es.len());
    assert_eq!(g.edges(), es);
    assert_eq!(vec![0, 1, 2, 3], g.vertices());
}

#[test]
fn lowlink_pass_agrees_with_brute_force_directly() {
    let mut rng = Lcg(31);
    for round in 0..40 {
        let n = 2 + (round % 9);
        let m = (rng.below(2 * n as u64 + 1)) as usize;
        let g = random_graph(&mut rng, n, m);
        let (fast_vertices, fast_edges) = lowlink_cuts(&g);
        assert_eq!(
            sorted(cut_vertices_naive(&g)),
            sorted(fast_vertices),
            "round {}",
            round
        );
        assert_eq!(
            sorted(cut_edges_naive(&g)),
            sorted(fast_edges),
            "round {}",
            round
        );
    }
}

#[test]
fn kruskal_with_filters() {
    let g = graph(5, &[(0, 4), (2, 3), (0, 1), (1, 4), (1, 2), (2, 4), (3, 4)]);
    let mut weight = PropMap::with_default(g.num_edges(), 0u64);
    for (j, &w) in [1u64, 2, 3, 4, 5, 6, 7].iter().enumerate() {
        weight.set(j, w);
    }
    // The all-approving filter reproduces the plain spanning forest.
    let mut all = AcceptAll;
    assert_eq!(g.kruskal_mst(&weight), g.kruskal(&weight, &mut all));
    // Capping the weight at two keeps only the two lightest edges.
    let mut capped = WeightBelow { weight, cap: 2 };
    let mut weight2 = PropMap::with_default(g.num_edges(), 0u64);
    for (j, &w) in [1u64, 2, 3, 4, 5, 6, 7].iter().enumerate() {
        weight2.set(j, w);
    }
    let light = g.kruskal(&weight2, &mut capped);
    let e = g.edges();
    assert_eq!(vec![e[0], e[1]], light);
    // The candidate list form accepts the same forest.
    let mut all2 = AcceptAll;
    let from_list = g.kruskal_edges(&g.edges(), &mut all2);
    assert_eq!(4, from_list.len());
}
