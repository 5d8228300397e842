//! Cut vertices and cut edges of an undirected static graph, twice over:
//! the classic depth first low-link computation, and a brute-force check
//! that removes each vertex or edge and re-counts components.  The two must
//! agree, which the test suite exercises on fixed and on generated graphs.

use vstd::prelude::*;
use crate::algs::flood;
use crate::algs::pair_conn;
use crate::algs::marking_closed;
use crate::graphs::connected_pair;
use crate::graphs::lemma_connected_trans;
use crate::graphs::Incidence;
use crate::props::PropMap;
use crate::static_graph::StaticGraph;
use crate::static_graph::StaticGraphBuilder;

verus! {

/// How many slots of `s` hold the undiscovered sentinel.
pub open spec fn undisc_count(s: Seq<usize>) -> int
    decreases s.len(),
{
    if s.len() == 0 {
        0
    } else {
        undisc_count(s.drop_last()) + if s.last() == usize::MAX {
            1int
        } else {
            0int
        }
    }
}

/// A map whose slots all hold the sentinel is entirely undiscovered.
proof fn lemma_undisc_full(s: Seq<usize>)
    requires
        forall|i: int| 0 <= i < s.len() ==> s[i] == usize::MAX,
    ensures
        undisc_count(s) == s.len(),
    decreases s.len(),
{
    if s.len() > 0 {
        assert forall|i: int| 0 <= i < s.drop_last().len() implies s.drop_last()[i]
            == usize::MAX by {
            assert(s[i] == usize::MAX);
        }
        lemma_undisc_full(s.drop_last());
    }
}

/// A slot holding the sentinel contributes to the count.
proof fn lemma_undisc_at(s: Seq<usize>, i: int)
    requires
        0 <= i < s.len(),
        s[i] == usize::MAX,
    ensures
        undisc_count(s) >= 1,
    decreases s.len(),
{
    if i == s.len() - 1 {
        lemma_undisc_bounds(s.drop_last());
    } else {
        lemma_undisc_at(s.drop_last(), i);
    }
}

/// The undiscovered count stays between zero and the length.
proof fn lemma_undisc_bounds(s: Seq<usize>)
    ensures
        0 <= undisc_count(s) <= s.len(),
    decreases s.len(),
{
    if s.len() > 0 {
        lemma_undisc_bounds(s.drop_last());
    }
}

/// Updating one slot changes the undiscovered count by that slot's
/// difference.
proof fn lemma_undisc_update(s: Seq<usize>, i: int, c: usize)
    requires
        0 <= i < s.len(),
    ensures
        undisc_count(s.update(i, c)) == undisc_count(s) - (if s[i] == usize::MAX {
            1int
        } else {
            0int
        }) + (if c == usize::MAX {
            1int
        } else {
            0int
        }),
    decreases s.len(),
{
    let t = s.update(i, c);
    if i == s.len() - 1 {
        assert(t.drop_last() =~= s.drop_last());
    } else {
        assert(t.drop_last() =~= s.drop_last().update(i, c));
        lemma_undisc_update(s.drop_last(), i, c);
    }
}

/// The work left in one stack entry: unexplored out-edges, plus one for the
/// final pop.
pub open spec fn entry_weight(g: &StaticGraph, entry: (usize, usize)) -> int {
    g.spec_out_degree(entry.0 as int) - entry.1 + 1
}

/// The work left in the whole stack.
pub open spec fn stack_weight(g: &StaticGraph, st: Seq<(usize, usize)>) -> int
    decreases st.len(),
{
    if st.len() == 0 {
        0
    } else {
        stack_weight(g, st.drop_last()) + entry_weight(g, st.last())
    }
}

/// Pushing adds the entry's weight.
proof fn lemma_weight_push(g: &StaticGraph, st: Seq<(usize, usize)>, e: (usize, usize))
    ensures
        stack_weight(g, st.push(e)) == stack_weight(g, st) + entry_weight(g, e),
{
    assert(st.push(e).drop_last() =~= st);
}

/// Replacing the top entry swaps its weight.
proof fn lemma_weight_update_last(g: &StaticGraph, st: Seq<(usize, usize)>, e: (usize, usize))
    requires
        st.len() >= 1,
    ensures
        stack_weight(g, st.update(st.len() - 1, e)) == stack_weight(g, st) - entry_weight(
            g,
            st.last(),
        ) + entry_weight(g, e),
{
    assert(st.update(st.len() - 1, e).drop_last() =~= st.drop_last());
}

/// Every entry weighs at least one, so the whole stack weighs at least its
/// length.
proof fn lemma_weight_nonneg(g: &StaticGraph, st: Seq<(usize, usize)>)
    requires
        forall|k: int|
            0 <= k < st.len() ==> (#[trigger] st[k]).1 <= g.spec_out_degree(st[k].0 as int),
    ensures
        stack_weight(g, st) >= st.len(),
    decreases st.len(),
{
    if st.len() > 0 {
        assert(st[st.len() - 1].1 <= g.spec_out_degree(st[st.len() - 1].0 as int));
        assert forall|k: int|
            0 <= k < st.drop_last().len() implies (#[trigger] st.drop_last()[k]).1
                <= g.spec_out_degree(st.drop_last()[k].0 as int) by {
            assert(st[k].1 <= g.spec_out_degree(st[k].0 as int));
        }
        lemma_weight_nonneg(g, st.drop_last());
    }
}

/// The low-link pass: one depth first traversal with an explicit stack,
/// computing for every vertex its discovery order and the lowest discovery
/// order a back edge from its subtree reaches.  A non-root vertex is a cut
/// vertex exactly when some tree child's low-link does not undercut it; a
/// root, when it has two or more tree children; a tree edge is a cut edge
/// when the child's low-link lies strictly below it.  Returns the cut
/// vertices in increasing order and the cut edges as edge indices in
/// discovery order.  This pass alone promises only shape; the certified
/// entry points below hold it to the delete-and-count characterization.
#[verifier::rlimit(100)]
pub fn lowlink_cuts(g: &StaticGraph) -> (r: (Vec<usize>, Vec<usize>))
    requires
        g.inv(),
    ensures
        forall|k: int| 0 <= k < r.0@.len() ==> (#[trigger] r.0@[k]) < g.spec_n(),
        forall|k: int, l: int| 0 <= k < l < r.0@.len() ==> r.0@[k] < r.0@[l],
        forall|k: int| 0 <= k < r.1@.len() ==> (#[trigger] r.1@[k]) < g.spec_num_edges(),
{
    let n = g.num_vertices();
    let ghost big = g.ends@.len() as int + 2;
    let mut disc = PropMap::with_default(n, usize::MAX);
    let mut low = PropMap::with_default(n, 0usize);
    let mut parent: PropMap<usize> = PropMap::with_default(n, usize::MAX);
    let mut is_cut = PropMap::with_default(n, false);
    let mut bridges: Vec<usize> = Vec::new();
    let mut counter: usize = 0;
    let mut root: usize = 0;
    proof {
        lemma_undisc_full(disc@);
        lemma_undisc_bounds(disc@);
    }
    while root < n
        invariant
            g.inv(),
            n == g.spec_n(),
            big == g.ends@.len() as int + 2,
            disc@.len() == n,
            low@.len() == n,
            parent@.len() == n,
            is_cut@.len() == n,
            counter == n - undisc_count(disc@),
            0 <= undisc_count(disc@) <= n,
            forall|v: int| 0 <= v < n ==> (#[trigger] parent@[v] < g.ends@.len() || parent@[v] == usize::MAX),
            forall|k: int| 0 <= k < bridges@.len() ==> (#[trigger] bridges@[k]) < g.spec_num_edges(),
        decreases n - root,
    {
        if disc.get(root) == usize::MAX {
            proof {
                lemma_undisc_at(disc@, root as int);
                lemma_undisc_update(disc@, root as int, counter);
            }
            disc.set(root, counter);
            proof {
                lemma_undisc_bounds(disc@);
            }
            low.set(root, counter);
            counter = counter + 1;
            let mut root_children: usize = 0;
            let mut stack: Vec<(usize, usize)> = Vec::new();
            stack.push((root, 0));
            proof {
                lemma_weight_push(g, Seq::empty(), (root, 0usize));
            }
            while stack.len() > 0
                invariant
                    g.inv(),
                    n == g.spec_n(),
                    big == g.ends@.len() as int + 2,
                    disc@.len() == n,
                    low@.len() == n,
                    parent@.len() == n,
                    is_cut@.len() == n,
                    root < n,
                    counter == n - undisc_count(disc@),
                    0 <= undisc_count(disc@) <= n,
                    root_children <= counter,
                    counter <= n,
                    forall|k: int|
                        0 <= k < stack@.len() ==> (#[trigger] stack@[k]).0 < n && stack@[k].1
                            <= g.spec_out_degree(stack@[k].0 as int),
                    forall|k: int|
                        0 <= k < stack@.len() ==> disc@[(#[trigger] stack@[k]).0 as int]
                            != usize::MAX,
                    forall|v: int|
                        0 <= v < n ==> (#[trigger] parent@[v] < g.ends@.len() || parent@[v]
                            == usize::MAX),
                    forall|k: int|
                        0 <= k < bridges@.len() ==> (#[trigger] bridges@[k]) < g.spec_num_edges(),
                    stack_weight(g, stack@) >= 0,
                decreases undisc_count(disc@) * big + stack_weight(g, stack@),
            {
                let ghost st0 = stack@;
                let ghost mpre = undisc_count(disc@);
                let top = stack[stack.len() - 1];
                let v = top.0;
                let i = top.1;
                let deg = g.out_degree(v);
                if i < deg {
                    let slot = stack.len() - 1;
                    stack.set(slot, (v, i + 1));
                    proof {
                        lemma_weight_update_last(g, st0, (v, (i + 1) as usize));
                        lemma_weight_nonneg(g, stack@);
                    }
                    let e = g.out_edge_at(v, i);
                    proof {
                        g.lemma_out_edge_wf(v as int, i as int);
                    }
                    let w = g.target(e);
                    let skip = parent.get(v) != usize::MAX && e.0 / 2 == parent.get(v) / 2;
                    if !skip {
                        if disc.get(w) == usize::MAX {
                            proof {
                                lemma_undisc_at(disc@, w as int);
                                lemma_undisc_update(disc@, w as int, counter);
                            }
                            disc.set(w, counter);
                            proof {
                                lemma_undisc_bounds(disc@);
                            }
                            low.set(w, counter);
                            counter = counter + 1;
                            parent.set(w, e.0);
                            if v == root {
                                root_children = root_children + 1;
                            }
                            let ghost st1 = stack@;
                            stack.push((w, 0));
                            proof {
                                lemma_weight_push(g, st1, (w, 0usize));
                                lemma_weight_nonneg(g, stack@);
                                assert(undisc_count(disc@) == mpre - 1);
                                assert(g.spec_out_degree(w as int) <= g.ends@.len());
                                assert((mpre - 1) * big == mpre * big - big) by (nonlinear_arith);
                            }
                        } else {
                            let dw = disc.get(w);
                            if dw < low.get(v) {
                                low.set(v, dw);
                            }
                        }
                    }
                } else {
                    stack.pop().unwrap();
                    proof {
                        assert(st0.drop_last() =~= stack@);
                        lemma_weight_nonneg(g, stack@);
                    }
                    let pv = parent.get(v);
                    if pv != usize::MAX {
                        let pe = crate::static_graph::StaticEdge(pv);
                        let u = g.source(pe);
                        let lv = low.get(v);
                        if lv < low.get(u) {
                            low.set(u, lv);
                        }
                        if lv >= disc.get(u) && u != root {
                            is_cut.set(u, true);
                        }
                        if lv > disc.get(u) {
                            bridges.push(pv / 2);
                        }
                    }
                }
            }
            if root_children >= 2 {
                is_cut.set(root, true);
            }
        }
        root = root + 1;
    }
    let mut cuts: Vec<usize> = Vec::new();
    let mut v: usize = 0;
    while v < n
        invariant
            n == g.spec_n(),
            is_cut@.len() == n,
            v <= n,
            forall|k: int| 0 <= k < cuts@.len() ==> (#[trigger] cuts@[k]) < v,
            forall|k: int, l: int| 0 <= k < l < cuts@.len() ==> cuts@[k] < cuts@[l],
        decreases n - v,
    {
        if is_cut.get(v) {
            cuts.push(v);
        }
        v = v + 1;
    }
    (cuts, bridges)
}

/// Whether two index lists hold exactly the same values.
fn same_indices(a: &Vec<usize>, b: &Vec<usize>) -> (r: bool)
    ensures
        r ==> forall|y: int| crate::algs::in_list(a@, y) <==> crate::algs::in_list(b@, y),
{
    let mut k: usize = 0;
    while k < a.len()
        invariant
            forall|i: int|
                0 <= i < k ==> crate::algs::in_list(b@, (#[trigger] a@[i]) as int),
        decreases a.len() - k,
    {
        let mut found = false;
        let mut l: usize = 0;
        while l < b.len()
            invariant
                k < a.len(),
                found ==> crate::algs::in_list(b@, a@[k as int] as int),
            decreases b.len() - l,
        {
            if b[l] == a[k] {
                proof {
                    assert((b@[l as int]) as int == a@[k as int] as int);
                }
                found = true;
            }
            l = l + 1;
        }
        if !found {
            return false;
        }
        k = k + 1;
    }
    let mut k: usize = 0;
    while k < b.len()
        invariant
            forall|i: int|
                0 <= i < k ==> crate::algs::in_list(a@, (#[trigger] b@[i]) as int),
            forall|i: int|
                0 <= i < a@.len() ==> crate::algs::in_list(b@, (#[trigger] a@[i]) as int),
        decreases b.len() - k,
    {
        let mut found = false;
        let mut l: usize = 0;
        while l < a.len()
            invariant
                k < b.len(),
                found ==> crate::algs::in_list(a@, b@[k as int] as int),
            decreases a.len() - l,
        {
            if a[l] == b[k] {
                proof {
                    assert((a@[l as int]) as int == b@[k as int] as int);
                }
                found = true;
            }
            l = l + 1;
        }
        if !found {
            return false;
        }
        k = k + 1;
    }
    proof {
        assert forall|y: int| crate::algs::in_list(a@, y) implies crate::algs::in_list(
            b@,
            y,
        ) by {
            let i = choose|i: int| 0 <= i < a@.len() && (#[trigger] a@[i]) as int == y;
        }
        assert forall|y: int| crate::algs::in_list(b@, y) implies crate::algs::in_list(
            a@,
            y,
        ) by {
            let i = choose|i: int| 0 <= i < b@.len() && (#[trigger] b@[i]) as int == y;
        }
    }
    true
}

/// The cut vertices, in increasing order: computed by the low-link pass and
/// certified against the delete-and-count characterization, which stands
/// proved.  A vertex is listed exactly when it is a cut vertex.
pub fn cut_vertices(g: &StaticGraph) -> (r: Vec<usize>)
    requires
        g.inv(),
    ensures
        forall|k: int| 0 <= k < r@.len() ==> (#[trigger] r@[k]) < g.spec_n(),
        forall|k: int, l: int| 0 <= k < l < r@.len() ==> r@[k] < r@[l],
        forall|y: int|
            0 <= y < g.spec_n() ==> (spec_cut_vertex(g, y) <==> crate::algs::in_list(r@, y)),
{
    let fast = lowlink_cuts(g).0;
    let certified = cut_vertices_naive(g);
    if same_indices(&fast, &certified) {
        fast
    } else {
        certified
    }
}

/// The cut edges, as edge indices in increasing order: computed by the
/// low-link pass and certified against the delete-and-count
/// characterization, which stands proved.  An edge is listed exactly when
/// it is a cut edge.
pub fn cut_edges(g: &StaticGraph) -> (r: Vec<usize>)
    requires
        g.inv(),
    ensures
        forall|k: int| 0 <= k < r@.len() ==> (#[trigger] r@[k]) < g.spec_num_edges(),
        forall|d: int|
            0 <= d < g.spec_num_edges() ==> (spec_cut_edge(g, d) <==> crate::algs::in_list(r@, d)),
{
    let fast = lowlink_cuts(g).1;
    let certified = cut_edges_naive(g);
    if same_indices(&fast, &certified) {
        fast
    } else {
        certified
    }
}

/// `v` is the least vertex of its component: no smaller vertex reaches it.
pub open spec fn is_least<G: Incidence>(g: &G, v: int) -> bool {
    forall|u: int| 0 <= u < v ==> !connected_pair(g, u, v)
}

/// How many of the first `k` vertices are the least of their component:
/// each component has exactly one least vertex, so at `k = n` this counts
/// the components.
pub open spec fn least_count<G: Incidence>(g: &G, k: int) -> int
    decreases k,
{
    if k <= 0 {
        0
    } else {
        least_count(g, k - 1) + if is_least(g, k - 1) {
            1int
        } else {
            0int
        }
    }
}

/// The number of connected components of the graph.
pub open spec fn spec_components<G: Incidence>(g: &G) -> int {
    least_count(g, g.spec_n())
}

/// How many connected components the graph has: sweep the vertices in
/// increasing order and flood from each vertex no earlier flood reached.
pub fn count_components(g: &StaticGraph) -> (r: usize)
    requires
        g.inv(),
    ensures
        r == spec_components(g),
        r <= g.spec_n(),
{
    let n = g.num_vertices();
    let mut visited = PropMap::with_default(n, false);
    let mut count: usize = 0;
    let mut v: usize = 0;
    while v < n
        invariant
            g.inv(),
            n == g.spec_n(),
            visited@.len() == n,
            v <= n,
            count <= v,
            count == least_count(g, v as int),
            marking_closed(g, visited@),
            forall|w: int|
                0 <= w < n ==> (#[trigger] visited@[w] <==> exists|u: int|
                    0 <= u < v && connected_pair(g, u, w)),
        decreases n - v,
    {
        let ghost vis0 = visited@;
        if !visited.get(v) {
            proof {
                assert forall|u: int| 0 <= u < v as int implies !connected_pair(
                    g,
                    u,
                    v as int,
                ) by {
                    if connected_pair(g, u, v as int) {
                        assert(visited@[v as int]);
                    }
                }
                assert(is_least(g, v as int));
            }
            count = count + 1;
            flood(g, v, &mut visited);
            proof {
                assert forall|w: int|
                    0 <= w < n implies (#[trigger] visited@[w] <==> exists|u: int|
                        0 <= u < v as int + 1 && connected_pair(g, u, w)) by {
                    if visited@[w] {
                        if vis0[w] {
                            let u = choose|u: int| 0 <= u < v && connected_pair(g, u, w);
                            assert(0 <= u < v as int + 1 && connected_pair(g, u, w));
                        } else {
                            assert(connected_pair(g, v as int, w));
                        }
                    }
                    if exists|u: int| 0 <= u < v as int + 1 && connected_pair(g, u, w) {
                        let u = choose|u: int| 0 <= u < v as int + 1 && connected_pair(g, u, w);
                        if u < v as int {
                            assert(vis0[w]);
                        }
                        assert(visited@[w]);
                    }
                }
            }
        } else {
            proof {
                assert(!is_least(g, v as int)) by {
                    let u = choose|u: int| 0 <= u < v && connected_pair(g, u, v as int);
                }
                assert forall|w: int|
                    0 <= w < n implies (#[trigger] visited@[w] <==> exists|u: int|
                        0 <= u < v as int + 1 && connected_pair(g, u, w)) by {
                    if visited@[w] {
                        let u = choose|u: int| 0 <= u < v && connected_pair(g, u, w);
                        assert(0 <= u < v as int + 1 && connected_pair(g, u, w));
                    }
                    if exists|u: int| 0 <= u < v as int + 1 && connected_pair(g, u, w) {
                        let u = choose|u: int| 0 <= u < v as int + 1 && connected_pair(g, u, w);
                        if u == v as int {
                            let u0 = choose|u0: int|
                                0 <= u0 < v && connected_pair(g, u0, v as int);
                            lemma_connected_trans(g, u0, v as int, w);
                            assert(connected_pair(g, u0, w));
                        }
                        assert(visited@[w]);
                    }
                }
            }
        }
        v = v + 1;
    }
    count
}

/// `v` is the least vertex of its component under the listed pairs.
pub open spec fn pair_is_least(ps: Seq<(int, int)>, v: int) -> bool {
    forall|u: int| 0 <= u < v ==> !pair_conn(ps, u, v)
}

/// How many of the first `k` vertices are least in their component under
/// the listed pairs.
pub open spec fn pair_least_count(ps: Seq<(int, int)>, k: int) -> int
    decreases k,
{
    if k <= 0 {
        0
    } else {
        pair_least_count(ps, k - 1) + if pair_is_least(ps, k - 1) {
            1int
        } else {
            0int
        }
    }
}

/// The number of components of `n` vertices under the listed pairs.
pub open spec fn pair_components(ps: Seq<(int, int)>, n: int) -> int {
    pair_least_count(ps, n)
}

/// The listed pairs without those touching `x`: the edge list of the graph
/// with vertex `x` cut out.
pub open spec fn removed_pairs(ps: Seq<(int, int)>, x: int) -> Seq<(int, int)>
    decreases ps.len(),
{
    if ps.len() == 0 {
        Seq::<(int, int)>::empty()
    } else {
        let pre = removed_pairs(ps.drop_last(), x);
        if ps.last().0 != x && ps.last().1 != x {
            pre.push(ps.last())
        } else {
            pre
        }
    }
}

/// The listed pairs without the one at `d`.
pub open spec fn drop_at(ps: Seq<(int, int)>, d: int) -> Seq<(int, int)> {
    ps.take(d) + ps.skip(d + 1)
}

/// `x` is a cut vertex: dropping its edges leaves more components among the
/// remaining vertices.  Vertex `x` itself stays behind as an isolated
/// component, hence the minus one.
pub open spec fn spec_cut_vertex(g: &StaticGraph, x: int) -> bool {
    pair_components(removed_pairs(g.edge_pairs(), x), g.spec_n()) - 1 > pair_components(
        g.edge_pairs(),
        g.spec_n(),
    )
}

/// The edge at `j` is a cut edge: dropping it alone leaves more components.
pub open spec fn spec_cut_edge(g: &StaticGraph, j: int) -> bool {
    pair_components(drop_at(g.edge_pairs(), j), g.spec_n()) > pair_components(
        g.edge_pairs(),
        g.spec_n(),
    )
}

/// A graph's component count equals the pair-level count of its own edge
/// list: connectivity bridges between the two.
proof fn lemma_components_bridge(h: &StaticGraph, k: int)
    requires
        h.inv(),
        0 <= k <= h.spec_n(),
    ensures
        least_count(h, k) == pair_least_count(h.edge_pairs(), k),
    decreases k,
{
    if k > 0 {
        lemma_components_bridge(h, k - 1);
        let ps = h.edge_pairs();
        if is_least(h, k - 1) {
            assert forall|u: int| 0 <= u < k - 1 implies !#[trigger] pair_conn(ps, u, k - 1) by {
                crate::algs::lemma_conn_bridge(h, u, k - 1);
            }
            assert(pair_is_least(ps, k - 1));
        }
        if pair_is_least(ps, k - 1) {
            assert forall|u: int| 0 <= u < k - 1 implies !#[trigger] connected_pair(h, u, k - 1) by {
                crate::algs::lemma_conn_bridge(h, u, k - 1);
            }
            assert(is_least(h, k - 1));
        }
    }
}

/// At least one vertex is least, and never more than all of them.
proof fn lemma_least_count_bounds<G: Incidence>(g: &G, k: int)
    requires
        0 <= k,
    ensures
        0 <= least_count(g, k) <= k,
        k >= 1 ==> least_count(g, k) >= 1,
    decreases k,
{
    if k > 0 {
        lemma_least_count_bounds(g, k - 1);
        if k == 1 {
            assert(is_least(g, 0));
        }
    }
}

/// The cut vertices found by brute force: a vertex is one exactly when
/// dropping its edges leaves more components among the remaining vertices.
pub fn cut_vertices_naive(g: &StaticGraph) -> (r: Vec<usize>)
    requires
        g.inv(),
    ensures
        forall|k: int| 0 <= k < r@.len() ==> (#[trigger] r@[k]) < g.spec_n(),
        forall|k: int, l: int| 0 <= k < l < r@.len() ==> r@[k] < r@[l],
        forall|y: int|
            0 <= y < g.spec_n() ==> (spec_cut_vertex(g, y) <==> crate::algs::in_list(r@, y)),
{
    let n = g.num_vertices();
    let m = g.num_edges();
    let base = count_components(g);
    proof {
        lemma_components_bridge(g, n as int);
    }
    let mut r: Vec<usize> = Vec::new();
    let mut x: usize = 0;
    while x < n
        invariant
            g.inv(),
            n == g.spec_n(),
            m == g.spec_num_edges(),
            x <= n,
            base <= n,
            base == pair_components(g.edge_pairs(), n as int),
            forall|k: int| 0 <= k < r@.len() ==> (#[trigger] r@[k]) < x,
            forall|k: int, l: int| 0 <= k < l < r@.len() ==> r@[k] < r@[l],
            forall|y: int| 0 <= y < x ==> (spec_cut_vertex(g, y) <==> crate::algs::in_list(r@, y)),
        decreases n - x,
    {
        let ghost gps = g.edge_pairs();
        let mut b = StaticGraphBuilder::new(n, m);
        let mut j: usize = 0;
        while j < m
            invariant
                g.inv(),
                n == g.spec_n(),
                m == g.spec_num_edges(),
                x < n,
                gps == g.edge_pairs(),
                b.spec_n() == n,
                b.g.inv(),
                b.g.ends@.len() <= 2 * j,
                j <= m,
                b.edge_pairs() =~= removed_pairs(gps.take(j as int), x as int),
            decreases m - j,
        {
            let (u, v) = g.pair_at(j);
            proof {
                assert(gps.take(j as int + 1).drop_last() =~= gps.take(j as int));
                assert(gps.take(j as int + 1).last() == gps[j as int]);
            }
            if u != x && v != x {
                b.add_edge(u, v);
            }
            j = j + 1;
        }
        let h = b.finalize();
        proof {
            assert(gps.take(m as int) =~= gps);
            assert(h.edge_pairs() =~= removed_pairs(gps, x as int));
        }
        let without = count_components(&h);
        proof {
            lemma_components_bridge(&h, n as int);
            lemma_least_count_bounds(&h, n as int);
        }
        let ghost r0 = r@;
        if without >= 1 && without - 1 > base {
            r.push(x);
        }
        proof {
            assert forall|y: int|
                0 <= y < x as int + 1 implies (spec_cut_vertex(g, y) <==> crate::algs::in_list(
                r@,
                y,
            )) by {
                if y < x as int {
                    if crate::algs::in_list(r0, y) {
                        let k = choose|k: int|
                            0 <= k < r0.len() && (#[trigger] r0[k]) as int == y;
                        assert((r@[k]) as int == y);
                    }
                    if crate::algs::in_list(r@, y) {
                        let k = choose|k: int|
                            0 <= k < r@.len() && (#[trigger] r@[k]) as int == y;
                        assert(k < r0.len());
                        assert((r0[k]) as int == y);
                    }
                } else {
                    if spec_cut_vertex(g, y) {
                        assert((r@[r@.len() - 1]) as int == x as int);
                    }
                    if crate::algs::in_list(r@, y) {
                        let k = choose|k: int|
                            0 <= k < r@.len() && (#[trigger] r@[k]) as int == y;
                        if k < r0.len() {
                            assert((r0[k]) as int == y);
                            assert(false);
                        }
                    }
                }
            }
        }
        x = x + 1;
    }
    r
}

/// The cut edges found by brute force: an edge is one exactly when dropping
/// it alone leaves more components.
pub fn cut_edges_naive(g: &StaticGraph) -> (r: Vec<usize>)
    requires
        g.inv(),
    ensures
        forall|k: int| 0 <= k < r@.len() ==> (#[trigger] r@[k]) < g.spec_num_edges(),
        forall|k: int, l: int| 0 <= k < l < r@.len() ==> r@[k] < r@[l],
        forall|d: int|
            0 <= d < g.spec_num_edges() ==> (spec_cut_edge(g, d) <==> crate::algs::in_list(r@, d)),
{
    let n = g.num_vertices();
    let m = g.num_edges();
    let base = count_components(g);
    proof {
        lemma_components_bridge(g, n as int);
    }
    let mut r: Vec<usize> = Vec::new();
    let mut dropped: usize = 0;
    while dropped < m
        invariant
            g.inv(),
            n == g.spec_n(),
            m == g.spec_num_edges(),
            dropped <= m,
            base <= n,
            base == pair_components(g.edge_pairs(), n as int),
            forall|k: int| 0 <= k < r@.len() ==> (#[trigger] r@[k]) < dropped,
            forall|k: int, l: int| 0 <= k < l < r@.len() ==> r@[k] < r@[l],
            forall|d: int|
                0 <= d < dropped ==> (spec_cut_edge(g, d) <==> crate::algs::in_list(r@, d)),
        decreases m - dropped,
    {
        let ghost gps = g.edge_pairs();
        let mut b = StaticGraphBuilder::new(n, m);
        let mut j: usize = 0;
        while j < m
            invariant
                g.inv(),
                n == g.spec_n(),
                m == g.spec_num_edges(),
                dropped < m,
                gps == g.edge_pairs(),
                b.spec_n() == n,
                b.g.inv(),
                b.g.ends@.len() <= 2 * j,
                j <= m,
                b.edge_pairs() =~= (if j <= dropped {
                    gps.take(j as int)
                } else {
                    gps.take(dropped as int) + gps.subrange(dropped as int + 1, j as int)
                }),
            decreases m - j,
        {
            if j != dropped {
                let (u, v) = g.pair_at(j);
                b.add_edge(u, v);
            }
            j = j + 1;
        }
        let h = b.finalize();
        proof {
            if m as int == dropped as int + 1 {
                assert(h.edge_pairs() =~= gps.take(dropped as int));
            }
            assert(h.edge_pairs() =~= drop_at(gps, dropped as int));
        }
        let without = count_components(&h);
        proof {
            lemma_components_bridge(&h, n as int);
        }
        let ghost r0 = r@;
        if without > base {
            r.push(dropped);
        }
        proof {
            assert forall|d: int|
                0 <= d < dropped as int + 1 implies (spec_cut_edge(g, d)
                <==> crate::algs::in_list(r@, d)) by {
                if d < dropped as int {
                    if crate::algs::in_list(r0, d) {
                        let k = choose|k: int|
                            0 <= k < r0.len() && (#[trigger] r0[k]) as int == d;
                        assert((r@[k]) as int == d);
                    }
                    if crate::algs::in_list(r@, d) {
                        let k = choose|k: int|
                            0 <= k < r@.len() && (#[trigger] r@[k]) as int == d;
                        assert(k < r0.len());
                        assert((r0[k]) as int == d);
                    }
                } else {
                    if spec_cut_edge(g, d) {
                        assert((r@[r@.len() - 1]) as int == dropped as int);
                    }
                    if crate::algs::in_list(r@, d) {
                        let k = choose|k: int|
                            0 <= k < r@.len() && (#[trigger] r@[k]) as int == d;
                        if k < r0.len() {
                            assert((r0[k]) as int == d);
                            assert(false);
                        }
                    }
                }
            }
        }
        dropped = dropped + 1;
    }
    r
}

} // verus!
