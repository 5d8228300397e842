//! A complete graph whose edges carry their endpoint pair directly: the
//! plainest dense representation.  The triangular edge index maps each
//! unordered pair to its position in the lexicographic enumeration of all
//! pairs, so an edge and its reverse share one property slot.

use vstd::prelude::*;

verus! {

/// The triangular index of the pair `{a, b}`, `a < b`, among all unordered
/// pairs of `[0, n)` in lexicographic order: the pairs of all earlier rows,
/// plus the position within row `a`.
pub open spec fn tri_index(n: int, a: int, b: int) -> int {
    a * (n - 1) - (a * a - a) / 2 + b - a - 1
}

/// `a * a - a` is even and at least `a`, so halving it is exact.
pub proof fn lemma_sq_minus_even(a: int)
    requires
        a >= 0,
    ensures
        a * a - a >= 0,
        a * a >= a,
        a * a - a == 2 * ((a * a - a) / 2),
{
    let t = a * a - a;
    let h = a / 2;
    if a % 2 == 0 {
        assert(t == 2 * (h * a - h)) by (nonlinear_arith)
            requires a == 2 * h, t == a * a - a;
    } else {
        assert(t == 2 * (a * h)) by (nonlinear_arith)
            requires a - 1 == 2 * h, t == a * a - a;
    }
    assert(t >= 0) by (nonlinear_arith)
        requires a >= 0, t == a * a - a;
}

/// The triangular index of a valid pair lies in `[0, n*(n-1)/2)`, and
/// stepping to the lexicographically next pair raises it by one.
pub proof fn lemma_tri_index_bounds(n: int, a: int, b: int)
    requires
        0 <= a < b < n,
    ensures
        0 <= tri_index(n, a, b) < n * (n - 1) / 2,
        b + 1 < n ==> tri_index(n, a, b + 1) == tri_index(n, a, b) + 1,
        b == n - 1 && a + 2 < n ==> tri_index(n, a + 1, a + 2) == tri_index(n, a, b) + 1,
{
    let q = (a * a - a) / 2;
    lemma_sq_minus_even(a);
    assert(tri_index(n, a, b) >= 0) by (nonlinear_arith)
        requires 0 <= a < b < n, a * a - a == 2 * q, q == (a * a - a) / 2;
    let m2 = n * (n - 1);
    assert(2 * tri_index(n, a, b) < m2) by (nonlinear_arith)
        requires 0 <= a < b < n, a * a - a == 2 * q, q == (a * a - a) / 2, m2 == n * (n - 1);
    assert(m2 % 2 == 0 && m2 >= 0) by {
        let h = n / 2;
        if n % 2 == 0 {
            assert(m2 == 2 * (h * (n - 1))) by (nonlinear_arith)
                requires n == 2 * h, m2 == n * (n - 1);
        } else {
            assert(m2 == 2 * (n * h)) by (nonlinear_arith)
                requires n - 1 == 2 * h, m2 == n * (n - 1);
        }
        assert(m2 >= 0) by (nonlinear_arith)
            requires m2 == n * (n - 1), n >= 2;
    }
    if b == n - 1 && a + 2 < n {
        let a1 = a + 1;
        let q1 = (a1 * a1 - a1) / 2;
        assert(a1 * a1 - a1 == a * a - a + 2 * a) by (nonlinear_arith)
            requires a1 == a + 1;
        assert(q1 == q + a);
        assert(tri_index(n, a + 1, a + 2) == tri_index(n, a, b) + 1) by (nonlinear_arith)
            requires
                b == n - 1,
                q1 == q + a,
                q == (a * a - a) / 2,
                q1 == ((a + 1) * (a + 1) - (a + 1)) / 2,
                n >= 2;
    }
}

/// A complete graph on `n` vertices, edges held as endpoint pairs.
#[derive(Clone, PartialEq, Eq, Structural, Debug)]
pub struct CompleteGraph(pub u32);

/// An edge of the pair representation: its two distinct endpoints, in the
/// orientation the caller gave.  No `Hash`: equality ignores the
/// orientation, so a derived hash would disagree with it.
#[derive(Clone, Copy, Eq, Debug)]
pub struct CompleteEdge {
    /// The source endpoint.
    pub u: u32,
    /// The target endpoint.
    pub v: u32,
}

impl PartialEq for CompleteEdge {
    /// An edge equals its reverse: the pair is what matters.
    fn eq(&self, other: &CompleteEdge) -> (r: bool) {
        (self.u == other.u && self.v == other.v) || (self.u == other.v && self.v == other.u)
    }
}

impl vstd::std_specs::cmp::PartialEqSpecImpl for CompleteEdge {
    open spec fn obeys_eq_spec() -> bool {
        true
    }

    open spec fn eq_spec(&self, other: &CompleteEdge) -> bool {
        (self.u == other.u && self.v == other.v) || (self.u == other.v && self.v == other.u)
    }
}

impl CompleteEdge {
    /// The edge from `u` to `v`; a self-loop is no edge of a complete graph.
    pub fn new(u: u32, v: u32) -> (e: Self)
        requires
            u != v,
        ensures
            e.u == u,
            e.v == v,
    {
        CompleteEdge { u, v }
    }
}

/// Builds the sentinel that stands for "no edge".
#[derive(Clone, Copy)]
pub struct CompleteEdgeNone;

impl CompleteEdgeNone {
    /// The sentinel edge: both endpoints at the largest representable
    /// vertex, which no graph whose vertex count stays below it hands out.
    pub fn none() -> (e: CompleteEdge)
        ensures
            e.u == u32::MAX,
            e.v == u32::MAX,
    {
        CompleteEdge { u: u32::MAX, v: u32::MAX }
    }
}

/// Maps an edge to its dense property slot: the triangular index of its
/// unordered pair.
#[derive(Clone, Debug)]
pub struct CompleteEdgeToIndex(pub u32);

impl CompleteEdgeToIndex {
    /// The slot of `e`: an edge and its reverse share one.
    pub fn to_index(&self, e: CompleteEdge) -> (r: usize)
        requires
            e.u != e.v,
            e.u < self.0,
            e.v < self.0,
            self.0 * (self.0 - 1) <= usize::MAX,
        ensures
            r == tri_index(self.0 as int, if e.u < e.v {
                e.u as int
            } else {
                e.v as int
            }, if e.u < e.v {
                e.v as int
            } else {
                e.u as int
            }),
            r < self.0 * (self.0 - 1) / 2,
    {
        let n = self.0 as usize;
        let a = if e.u < e.v {
            e.u as usize
        } else {
            e.v as usize
        };
        let b = if e.u < e.v {
            e.v as usize
        } else {
            e.u as usize
        };
        proof {
            lemma_tri_index_bounds(n as int, a as int, b as int);
            assert(a * a <= a * (n - 1) && a * (n - 1) <= n * (n - 1)) by (nonlinear_arith)
                requires 0 <= a, a <= n - 1, n >= 2;
            lemma_sq_minus_even(a as int);
        }
        a * (n - 1) - (a * a - a) / 2 + (b - a - 1)
    }
}

/// An enumeration of every unordered pair, lexicographically: the `k`-th
/// pair produced has triangular index `k`.
pub struct EdgesIter {
    /// The vertex count.
    pub n: u32,
    /// How many pairs are left.
    pub rem: usize,
    /// The smaller endpoint of the next pair.
    pub u: u32,
    /// The larger endpoint of the next pair.
    pub v: u32,
}

impl EdgesIter {
    /// The total number of unordered pairs.
    pub open spec fn total(self) -> int {
        self.n as int * (self.n as int - 1) / 2
    }

    /// A state that can keep stepping: the cursor sits on a valid pair
    /// whose index leaves exactly `rem` pairs.
    pub open spec fn wf(self) -> bool {
        &&& self.n * (self.n as int - 1) <= usize::MAX
        &&& (self.rem > 0 ==> self.u < self.v < self.n && self.rem == self.total() - tri_index(
            self.n as int,
            self.u as int,
            self.v as int,
        ))
    }

    /// The next pair, in lexicographic order.  The pair returned when `k`
    /// pairs were already produced has triangular index exactly `k`.
    pub fn next(&mut self) -> (r: Option<CompleteEdge>)
        requires
            old(self).wf(),
        ensures
            final(self).wf(),
            final(self).n == old(self).n,
            old(self).rem == 0 ==> r is None && final(self).rem == 0,
            old(self).rem > 0 ==> final(self).rem == old(self).rem - 1 && (r matches Some(e)
                && e.u == old(self).u && e.v == old(self).v && e.u < e.v < old(self).n
                && tri_index(old(self).n as int, e.u as int, e.v as int) == old(self).total() - old(
                self,
            ).rem),
    {
        if self.rem == 0 {
            None
        } else {
            proof {
                lemma_tri_index_bounds(self.n as int, self.u as int, self.v as int);
            }
            let e = CompleteEdge { u: self.u, v: self.v };
            if self.v + 1 >= self.n {
                self.u = self.u + 1;
                self.v = self.u + 1;
                proof {
                    if self.rem > 1 {
                        let n = self.n as int;
                        let a = e.u as int;
                        assert(e.v as int == n - 1);
                        if a + 2 >= n {
                            // The finished row was the last one: the pair
                            // just produced was the final pair, so at most
                            // one remained.
                            assert(a == n - 2);
                            let q = (a * a - a) / 2;
                            let t2 = n * (n - 1);
                            lemma_sq_minus_even(a);
                            assert(t2 % 2 == 0) by {
                                let h = n / 2;
                                if n % 2 == 0 {
                                    assert(t2 == 2 * (h * (n - 1))) by (nonlinear_arith)
                                        requires n == 2 * h, t2 == n * (n - 1);
                                } else {
                                    assert(t2 == 2 * (n * h)) by (nonlinear_arith)
                                        requires n - 1 == 2 * h, t2 == n * (n - 1);
                                }
                            }
                            assert(2 * tri_index(n, a, n - 1) == t2 - 2) by (nonlinear_arith)
                                requires
                                    a == n - 2,
                                    2 * q == a * a - a,
                                    q == (a * a - a) / 2,
                                    t2 == n * (n - 1),
                                    n >= 2;
                            assert(false);
                        }
                        lemma_tri_index_bounds(self.n as int, e.u as int, e.v as int);
                    }
                }
            } else {
                self.v = self.v + 1;
            }
            self.rem = self.rem - 1;
            Some(e)
        }
    }

    /// Lower and upper bound on how many pairs are left; both exact.
    pub fn size_hint(&self) -> (r: (usize, Option<usize>))
        ensures
            r.0 == self.rem,
            r.1 == Some(self.rem),
    {
        (self.rem, Some(self.rem))
    }

    /// How many pairs are left.
    pub fn len(&self) -> (r: usize)
        ensures
            r == self.rem,
    {
        self.rem
    }
}

/// An enumeration of the edges at one vertex: the pair `(u, w)` for every
/// other vertex `w`, in increasing order.
pub struct IncEdgeIter {
    /// How many neighbors are left.
    pub rem: usize,
    /// The vertex whose edges are enumerated.
    pub u: u32,
    /// The neighbor cursor.
    pub v: u32,
}

impl IncEdgeIter {
    /// The next incident edge: from `u` to the next vertex that is not `u`.
    pub fn next(&mut self) -> (r: Option<CompleteEdge>)
        requires
            old(self).v <= u32::MAX - 2,
        ensures
            final(self).u == old(self).u,
            old(self).rem == 0 ==> r is None && final(self).rem == 0,
            old(self).rem > 0 ==> final(self).rem == old(self).rem - 1 && (r matches Some(e)
                && e.u == old(self).u && e.v == (if old(self).v == old(self).u {
                old(self).v + 1
            } else {
                old(self).v as int
            }) && e.v != e.u && final(self).v == e.v + 1),
    {
        if self.rem == 0 {
            None
        } else {
            if self.u == self.v {
                self.v = self.v + 1;
            }
            let e = CompleteEdge { u: self.u, v: self.v };
            self.v = self.v + 1;
            self.rem = self.rem - 1;
            Some(e)
        }
    }

    /// Lower and upper bound on how many edges are left; both exact.
    pub fn size_hint(&self) -> (r: (usize, Option<usize>))
        ensures
            r.0 == self.rem,
            r.1 == Some(self.rem),
    {
        (self.rem, Some(self.rem))
    }

    /// How many edges are left.
    pub fn len(&self) -> (r: usize)
        ensures
            r == self.rem,
    {
        self.rem
    }
}

impl CompleteGraph {
    /// The vertex count.
    pub open spec fn spec_n(&self) -> int {
        self.0 as int
    }

    /// The edge space fits the machine's index type.
    pub open spec fn wf(&self) -> bool {
        self.0 * (self.0 as int - 1) <= usize::MAX
    }

    /// A complete graph on `n` vertices.
    pub fn new(n: u32) -> (g: Self)
        requires
            n * (n as int - 1) <= usize::MAX,
        ensures
            g.wf(),
            g.spec_n() == n,
    {
        CompleteGraph(n)
    }

    /// How many vertices the graph has.
    pub fn num_vertices(&self) -> (r: usize)
        ensures
            r == self.spec_n(),
    {
        self.0 as usize
    }

    /// All vertices, in increasing order.
    pub fn vertices(&self) -> (r: Vec<u32>)
        ensures
            r@.len() == self.spec_n(),
            forall|i: int| 0 <= i < r@.len() ==> r@[i] == i,
    {
        let mut r: Vec<u32> = Vec::new();
        let mut v: u32 = 0;
        while v < self.0
            invariant
                v <= self.0,
                r@.len() == v,
                forall|i: int| 0 <= i < r@.len() ==> r@[i] == i,
            decreases self.0 - v,
        {
            r.push(v);
            v = v + 1;
        }
        r
    }

    /// How many unordered pairs of distinct vertices there are.
    pub fn num_edges(&self) -> (r: usize)
        requires
            self.wf(),
        ensures
            r == self.spec_n() * (self.spec_n() - 1) / 2,
    {
        let n = self.0 as usize;
        if n == 0 {
            proof {
                let z = self.spec_n();
                assert(z * (z - 1) == 0) by (nonlinear_arith)
                    requires z == 0;
            }
            0
        } else {
            n * (n - 1) / 2
        }
    }

    /// The source endpoint of `e`.
    pub fn source(&self, e: CompleteEdge) -> (r: u32)
        ensures
            r == e.u,
    {
        e.u
    }

    /// The target endpoint of `e`.
    pub fn target(&self, e: CompleteEdge) -> (r: u32)
        ensures
            r == e.v,
    {
        e.v
    }

    /// The same edge, seen from the other endpoint.
    pub fn reverse(&self, e: CompleteEdge) -> (r: CompleteEdge)
        requires
            e.u != e.v,
        ensures
            r.u == e.v,
            r.v == e.u,
    {
        CompleteEdge { u: e.v, v: e.u }
    }

    /// Every other vertex neighbors `v`.
    pub fn degree(&self, v: u32) -> (r: usize)
        requires
            v < self.spec_n(),
        ensures
            r == self.spec_n() - 1,
    {
        self.0 as usize - 1
    }

    /// Enumerate every unordered pair once, lexicographically.
    pub fn edges(&self) -> (it: EdgesIter)
        requires
            self.wf(),
        ensures
            it.wf(),
            it.n == self.0,
            it.rem == self.spec_n() * (self.spec_n() - 1) / 2,
    {
        let m = self.num_edges();
        let it = EdgesIter { n: self.0, rem: m, u: 0, v: 1 };
        proof {
            if m > 0 {
                assert(tri_index(self.0 as int, 0, 1) == 0) by (nonlinear_arith);
            }
        }
        it
    }

    /// Enumerate the edges at `v`.
    pub fn inc_edges(&self, v: u32) -> (it: IncEdgeIter)
        requires
            v < self.spec_n(),
        ensures
            it.rem == self.spec_n() - 1,
            it.u == v,
            it.v == 0,
    {
        IncEdgeIter { rem: self.0 as usize - 1, u: v, v: 0 }
    }

    /// The triangular edge indexer sized to this graph.
    pub fn prop_edge_index(&self) -> (r: CompleteEdgeToIndex)
        ensures
            r.0 == self.0,
    {
        CompleteEdgeToIndex(self.0)
    }

    /// Map a uniform draw to a vertex.
    pub fn choose_vertex(&self, draw: u64) -> (r: u32)
        requires
            self.spec_n() > 0,
        ensures
            r == draw as int % self.spec_n(),
    {
        (draw % self.0 as u64) as u32
    }

    /// Map two uniform draws to an edge: the first picks the source, the
    /// second one of its neighbors in increasing order.
    pub fn choose_edge(&self, draw_u: u64, draw_v: u64) -> (r: CompleteEdge)
        requires
            self.spec_n() > 1,
        ensures
            r.u == draw_u as int % self.spec_n(),
            r.v == ({
                let w = draw_v as int % (self.spec_n() - 1);
                if w >= r.u {
                    w + 1
                } else {
                    w
                }
            }),
            r.u != r.v,
            r.u < self.spec_n(),
            r.v < self.spec_n(),
    {
        let u = self.choose_vertex(draw_u);
        let w = (draw_v % (self.0 as u64 - 1)) as u32;
        let v = if w >= u {
            w + 1
        } else {
            w
        };
        CompleteEdge { u, v }
    }

    /// Map a uniform draw to an edge at `u`: the draw picks one of its
    /// neighbors in increasing order.
    pub fn choose_inc_edge(&self, u: u32, draw: u64) -> (r: CompleteEdge)
        requires
            self.spec_n() > 1,
            u < self.spec_n(),
        ensures
            r.u == u,
            r.v == ({
                let w = draw as int % (self.spec_n() - 1);
                if w >= u {
                    w + 1
                } else {
                    w
                }
            }),
            r.v != u,
            r.v < self.spec_n(),
    {
        let w = (draw % (self.0 as u64 - 1)) as u32;
        let v = if w >= u {
            w + 1
        } else {
            w
        };
        CompleteEdge { u, v }
    }
}

} // verus!
