//! The dense edge codec: a bijection between endpoint pairs `(u, v)` of a
//! complete graph on `n` vertices and compact integer edge codes, in a
//! directed and an undirected variant.  No endpoint table is ever stored;
//! encoding and decoding are closed-form arithmetic.
//!
//! The directed code space is `[0, n*(n-1))`.  The undirected variant packs
//! an unordered pair into `[0, n*(n-1)/2)` and keeps the caller's orientation
//! in the lowest bit of the stored value, so that an edge and its reverse
//! share one index (the stored value divided by two) while `ends` can still
//! report the original direction.

use vstd::prelude::*;
use vstd::arithmetic::div_mod::lemma_fundamental_div_mod_converse;
use vstd::arithmetic::div_mod::lemma_fundamental_div_mod;

verus! {

/// Vertex identifier of the dense (complete) representations.
pub type CVertex = u32;

/// The number of directed edge codes of a complete graph on `n` vertices.
pub open spec fn directed_code_count(n: int) -> int {
    n * (n - 1)
}

/// The number of undirected edge indices of a complete graph on `n` vertices.
pub open spec fn undirected_index_count(n: int) -> int {
    n * (n - 1) / 2
}

/// The whole directed code space fits in `usize`, so the arithmetic of both
/// codecs stays in bounds.  This is a machine limit, not a property of the
/// encoding.
pub open spec fn edge_space_fits(n: CVertex) -> bool {
    n * (n - 1) <= usize::MAX
}

/// A valid endpoint pair of a complete graph on `n` vertices: two distinct
/// vertices below `n`.
pub open spec fn valid_pair(n: int, u: int, v: int) -> bool {
    0 <= u < n && 0 <= v < n && u != v
}

// Directed codec.

/// Code of the ordered pair `(u, v)`: the pairs are laid out row by row,
/// each row of length `n - 1` listing the `n - 1` possible targets.
pub open spec fn directed_code(n: int, u: int, v: int) -> int {
    if v < u {
        u * (n - 1) + v
    } else {
        u * (n - 1) + v - 1
    }
}

/// The ordered pair encoded by `c`.
pub open spec fn directed_pair(n: int, c: int) -> (int, int) {
    let u = c / (n - 1);
    let r = c % (n - 1);
    if r < u {
        (u, r)
    } else {
        (u, r + 1)
    }
}

/// The directed code of a valid pair lies in the code space, and decoding it
/// returns the pair: the directed codec round-trips.
pub proof fn lemma_directed_round_trip(n: int, u: int, v: int)
    requires
        valid_pair(n, u, v),
    ensures
        0 <= directed_code(n, u, v) < directed_code_count(n),
        directed_pair(n, directed_code(n, u, v)) == (u, v),
{
    let r = if v < u { v } else { v - 1 };
    let c = directed_code(n, u, v);
    assert(c == u * (n - 1) + r);
    assert(0 <= r < n - 1);
    lemma_fundamental_div_mod_converse(c, n - 1, u, r);
    assert(c >= 0) by (nonlinear_arith)
        requires c == u * (n - 1) + r, u >= 0, n >= 2, r >= 0;
    assert(c < n * (n - 1)) by (nonlinear_arith)
        requires c == u * (n - 1) + r, u <= n - 1, r < n - 1, n >= 2;
}

/// Every code in the directed code space decodes to a valid pair, and
/// encoding that pair gives the code back: the codec is onto, so an
/// enumeration of the code space enumerates each directed edge exactly once.
pub proof fn lemma_directed_code_onto(n: int, c: int)
    requires
        2 <= n,
        0 <= c < directed_code_count(n),
    ensures
        valid_pair(n, directed_pair(n, c).0, directed_pair(n, c).1),
        directed_code(n, directed_pair(n, c).0, directed_pair(n, c).1) == c,
{
    let u = c / (n - 1);
    let r = c % (n - 1);
    lemma_fundamental_div_mod(c, n - 1);
    assert(c == u * (n - 1) + r) by (nonlinear_arith)
        requires c == (n - 1) * u + r;
    assert(0 <= r < n - 1);
    assert(u >= 0) by (nonlinear_arith)
        requires c == u * (n - 1) + r, r < n - 1, c >= 0, n >= 2;
    assert(u <= n - 1) by (nonlinear_arith)
        requires c == u * (n - 1) + r, r >= 0, c < n * (n - 1), n >= 2;
}

// Undirected codec.

/// Index of the unordered pair `{a, b}`, for `a < b`.  The rows are split at
/// `(n - 1) / 2`: low rows are laid out forward, high rows are folded back
/// down, which keeps every intermediate value below `n * (n - 1) / 2 + n` and
/// balances the two halves.  Any constant-time invertible bijection would do;
/// the round-trip lemmas below are the contract.
pub open spec fn upair_index(n: int, a: int, b: int) -> int {
    if a < (n - 1) / 2 {
        a * n + b
    } else {
        (n - a - 1) * n - b - 1
    }
}

/// The unordered pair `(a, b)`, `a < b`, encoded by index `c`.
pub open spec fn upair_of_index(n: int, c: int) -> (int, int) {
    let x = c / n;
    let y = c % n;
    if x < y {
        (x, y)
    } else {
        (n - x - 2, n - y - 1)
    }
}

/// Stored value of the ordered pair `(u, v)`: twice the index of the
/// unordered pair, plus an orientation bit recording whether `u > v`.
pub open spec fn undirected_code(n: int, u: int, v: int) -> int {
    if u < v {
        2 * upair_index(n, u, v)
    } else {
        2 * upair_index(n, v, u) + 1
    }
}

/// The ordered pair encoded by the stored value `s`: the unordered pair of
/// the index `s / 2`, swapped when the orientation bit is set.
pub open spec fn undirected_ends(n: int, s: int) -> (int, int) {
    let p = upair_of_index(n, s / 2);
    if s % 2 == 0 {
        p
    } else {
        (p.1, p.0)
    }
}

/// The index of an unordered pair `a < b` lies in the index space, and
/// decoding it returns the pair.
pub proof fn lemma_upair_round_trip(n: int, a: int, b: int)
    requires
        0 <= a < b < n,
    ensures
        0 <= upair_index(n, a, b) < undirected_index_count(n),
        upair_of_index(n, upair_index(n, a, b)) == (a, b),
{
    let h = (n - 1) / 2;
    let par = (n - 1) % 2;
    lemma_fundamental_div_mod(n - 1, 2);
    assert(n - 1 == 2 * h + par);
    let c = upair_index(n, a, b);
    if a < h {
        assert(c == a * n + b);
        lemma_fundamental_div_mod_converse(c, n, a, b);
        assert(0 <= c) by (nonlinear_arith)
            requires c == a * n + b, a >= 0, b >= 0, n >= 2;
        assert(2 * c < n * (n - 1)) by (nonlinear_arith)
            requires
                c == a * n + b,
                a <= h - 1,
                b <= n - 1,
                n - 1 == 2 * h + par,
                0 <= par <= 1,
                n >= 2;
        assert(c < undirected_index_count(n)) by {
            lemma_double_lt(c, n);
        }
    } else {
        let q = n - a - 2;
        let s = n - b - 1;
        assert(c == q * n + s) by (nonlinear_arith)
            requires c == (n - a - 1) * n - b - 1, q == n - a - 2, s == n - b - 1;
        assert(0 <= s < n);
        assert(q >= 0);
        lemma_fundamental_div_mod_converse(c, n, q, s);
        assert(q >= s);
        assert((n - q - 2, n - s - 1) == (a, b));
        assert(0 <= c) by (nonlinear_arith)
            requires c == q * n + s, q >= 0, s >= 0, n >= 2;
        assert(2 * c < n * (n - 1)) by (nonlinear_arith)
            requires
                c == q * n + s,
                s <= q,
                q <= n - h - 2,
                a >= h,
                q == n - a - 2,
                n - 1 == 2 * h + par,
                0 <= par <= 1,
                n >= 2;
        assert(c < undirected_index_count(n)) by {
            lemma_double_lt(c, n);
        }
    }
}

/// A stored value below `n * (n - 1)` forces `n >= 2`, and its index lies in
/// the undirected index space.
proof fn lemma_valid_code_bounds(s: int, n: int)
    requires
        0 <= s < n * (n - 1),
        0 <= n,
    ensures
        2 <= n,
        0 <= s / 2 < undirected_index_count(n),
{
    assert(2 <= n) by (nonlinear_arith)
        requires 0 <= s, s < n * (n - 1), 0 <= n;
    lemma_double_lt(s / 2, n);
}

/// `2 * c < n * (n - 1)` exactly when `c < n * (n - 1) / 2`, because
/// `n * (n - 1)` is even.
proof fn lemma_double_lt(c: int, n: int)
    requires
        n >= 0,
    ensures
        2 * c < n * (n - 1) <==> c < n * (n - 1) / 2,
        2 * undirected_index_count(n) == n * (n - 1),
{
    let m = n * (n - 1);
    let q = n / 2;
    if n % 2 == 0 {
        assert(m == 2 * (q * (n - 1))) by (nonlinear_arith)
            requires m == n * (n - 1), n == 2 * q;
    } else {
        assert(m == 2 * (n * q)) by (nonlinear_arith)
            requires m == n * (n - 1), n - 1 == 2 * q;
    }
    assert(m >= 0) by (nonlinear_arith)
        requires m == n * (n - 1), n >= 0;
    lemma_fundamental_div_mod(m, 2);
}

/// Every index in the undirected index space decodes to a valid unordered
/// pair, and encoding that pair gives the index back: each index stands for
/// exactly one unordered pair.
pub proof fn lemma_upair_onto(n: int, c: int)
    requires
        2 <= n,
        0 <= c < undirected_index_count(n),
    ensures
        ({
            let (a, b) = upair_of_index(n, c);
            0 <= a < b < n && upair_index(n, a, b) == c
        }),
{
    let h = (n - 1) / 2;
    let par = (n - 1) % 2;
    lemma_fundamental_div_mod(n - 1, 2);
    assert(n - 1 == 2 * h + par);
    let x = c / n;
    let y = c % n;
    lemma_fundamental_div_mod(c, n);
    assert(c == x * n + y) by (nonlinear_arith)
        requires c == n * x + y;
    assert(0 <= y < n);
    assert(x >= 0) by (nonlinear_arith)
        requires c == x * n + y, y < n, c >= 0, n >= 2;
    lemma_double_lt(c, n);
    assert(2 * c < n * (n - 1));
    if x < y {
        // A forward row: the row number is below the split.
        assert(x < h) by (nonlinear_arith)
            requires
                c == x * n + y,
                x < y,
                y <= n - 1,
                2 * c < n * (n - 1),
                n - 1 == 2 * h + par,
                0 <= par <= 1,
                x >= 0,
                n >= 2;
    } else {
        // A folded row.
        let a = n - x - 2;
        let b = n - y - 1;
        assert(x <= n - h - 2) by (nonlinear_arith)
            requires
                c == x * n + y,
                y >= 0,
                y <= x,
                2 * c < n * (n - 1),
                n - 1 == 2 * h + par,
                0 <= par <= 1,
                x >= 0,
                n >= 2;
        assert(a >= h);
        assert(a < b < n);
        assert(upair_index(n, a, b) == (n - a - 1) * n - b - 1);
        assert((n - a - 1) * n - b - 1 == c) by (nonlinear_arith)
            requires c == x * n + y, a == n - x - 2, b == n - y - 1;
    }
}

/// The undirected codec round-trips: the stored value of a valid pair lies
/// in `[0, n*(n-1))`, decoding it returns the pair in the caller's order,
/// and its index (the stored value divided by two) ignores the order.
pub proof fn lemma_undirected_round_trip(n: int, u: int, v: int)
    requires
        valid_pair(n, u, v),
    ensures
        0 <= undirected_code(n, u, v) < directed_code_count(n),
        undirected_ends(n, undirected_code(n, u, v)) == (u, v),
        undirected_code(n, u, v) / 2 == if u < v {
            upair_index(n, u, v)
        } else {
            upair_index(n, v, u)
        },
        undirected_code(n, u, v) / 2 < undirected_index_count(n),
{
    let s = undirected_code(n, u, v);
    if u < v {
        lemma_upair_round_trip(n, u, v);
        let i = upair_index(n, u, v);
        lemma_fundamental_div_mod_converse(s, 2, i, 0);
        lemma_double_lt(i, n);
    } else {
        lemma_upair_round_trip(n, v, u);
        let i = upair_index(n, v, u);
        lemma_fundamental_div_mod_converse(s, 2, i, 1);
        lemma_double_lt(i, n);
    }
}

// The edge types.

/// The operations every dense edge representation offers: conversion to and
/// from a compact index (the slot of a property map), construction from an
/// endpoint pair, endpoint recovery, and reversal.  All of them are
/// closed-form arithmetic on the stored code.
pub trait EdgeImpl: Sized + Copy {
    /// The stored integer.
    spec fn spec_code(self) -> int;

    /// The property-map index: the stored integer without the orientation
    /// bit, so an edge and its reverse share one slot.
    spec fn spec_index(self) -> int;

    /// The edge lies in the code space of a complete graph on `n` vertices.
    spec fn spec_valid(self, n: int) -> bool;

    /// The endpoint pair the edge stands for, on `n` vertices.
    spec fn spec_ends(self, n: int) -> (int, int);

    /// The index of the sentinel edge that stands for "no edge".
    spec fn spec_none_index() -> int;

    /// How many distinct edge indices a complete graph on `n` vertices has.
    spec fn spec_count(n: int) -> int;

    /// Validity is exactly an index inside the index space.
    proof fn lemma_valid_iff_index(self, n: int)
        requires
            0 <= n,
        ensures
            self.spec_valid(n) <==> 0 <= self.spec_index() < Self::spec_count(n),
    ;

    /// The sentinel index lies outside the index space of any graph whose
    /// edge space fits, so no valid edge collides with it.
    proof fn lemma_none_index_large(n: CVertex)
        requires
            edge_space_fits(n),
        ensures
            Self::spec_count(n as int) <= Self::spec_none_index(),
    ;

    /// The stored value of index `index` stays in range of the machine's
    /// index type.
    spec fn spec_from_index_ok(index: int) -> bool;

    /// Every index of a fitting edge space can be stored.
    proof fn lemma_from_index_ok(index: int, n: CVertex)
        requires
            edge_space_fits(n),
            0 <= index < Self::spec_count(n as int),
        ensures
            Self::spec_from_index_ok(index),
    ;

    /// The edge of index `index` in its canonical orientation, as a value.
    spec fn spec_from_index(index: int) -> Self;

    /// The edge whose index is `index`, in its canonical orientation.
    fn from_index(index: usize) -> (e: Self)
        requires
            Self::spec_from_index_ok(index as int),
        ensures
            e == Self::spec_from_index(index as int),
            e.spec_index() == index,
    ;

    /// The property-map index of this edge.
    fn to_index(self) -> (i: usize)
        ensures
            i == self.spec_index(),
    ;

    /// The edge encoding the ordered pair `(u, v)`, as a value.
    spec fn spec_new(n: int, u: int, v: int) -> Self;

    /// The encoded edge of a valid pair is valid and decodes to the pair:
    /// the codec round-trips, stated over the values alone.
    proof fn lemma_spec_new(n: int, u: int, v: int)
        requires
            valid_pair(n, u, v),
            directed_code_count(n) <= usize::MAX,
        ensures
            Self::spec_new(n, u, v).spec_valid(n),
            Self::spec_new(n, u, v).spec_ends(n) == (u, v),
    ;

    /// A valid edge decodes to a valid pair.
    proof fn lemma_ends_valid(self, n: int)
        requires
            0 <= n,
            self.spec_valid(n),
        ensures
            valid_pair(n, self.spec_ends(n).0, self.spec_ends(n).1),
    ;

    /// Two valid edges with one index join the same two endpoints, one way
    /// or the other.
    proof fn lemma_same_index_ends(self, other: Self, n: int)
        requires
            0 <= n,
            self.spec_valid(n),
            other.spec_valid(n),
            self.spec_index() == other.spec_index(),
        ensures
            (self.spec_ends(n).0 == other.spec_ends(n).0 && self.spec_ends(n).1
                == other.spec_ends(n).1) || (self.spec_ends(n).0 == other.spec_ends(n).1
                && self.spec_ends(n).1 == other.spec_ends(n).0),
    ;

    /// Encode the ordered pair `(u, v)`.
    fn new(n: CVertex, u: CVertex, v: CVertex) -> (e: Self)
        requires
            u < n,
            v < n,
            u != v,
            edge_space_fits(n),
        ensures
            e == Self::spec_new(n as int, u as int, v as int),
            e.spec_valid(n as int),
            e.spec_ends(n as int) == (u as int, v as int),
    ;

    /// Decode the ordered pair `(u, v)` this edge stands for.
    fn ends(self, n: CVertex) -> (r: (CVertex, CVertex))
        requires
            self.spec_valid(n as int),
            edge_space_fits(n),
        ensures
            (r.0 as int, r.1 as int) == self.spec_ends(n as int),
            valid_pair(n as int, r.0 as int, r.1 as int),
    ;

    /// The edge standing for the reversed pair.
    fn reverse(self, n: CVertex) -> (r: Self)
        requires
            self.spec_valid(n as int),
            edge_space_fits(n),
        ensures
            r.spec_valid(n as int),
            r.spec_ends(n as int) == (self.spec_ends(n as int).1, self.spec_ends(n as int).0),
    ;

    /// Whether two edges stand for the same edge of the graph.  For an
    /// undirected edge this ignores the orientation bit.
    fn same_identity(self, other: Self) -> (b: bool)
        ensures
            b == (self.spec_index() == other.spec_index()),
    ;

    /// The sentinel edge that stands for "no edge".  Valid edges never share
    /// its index as long as the edge space fits in `usize`.
    fn none_edge() -> (e: Self)
        ensures
            e.spec_index() == Self::spec_none_index(),
    ;
}

/// An edge of the undirected complete graph: an unordered pair index doubled,
/// with the caller's orientation in the lowest bit.  No `Hash`: equality
/// ignores the orientation bit, so a derived hash would disagree with it;
/// hash the index from `to_index` instead.
#[derive(Clone, Copy, Eq, Debug)]
pub struct UndirectedEdge(pub usize);

/// An edge of the directed complete graph: the pair code itself.
#[derive(Clone, Copy, PartialEq, Eq, Structural, Debug, Hash)]
pub struct DirectedEdge(pub usize);

impl PartialEq for UndirectedEdge {
    /// Two undirected edges are equal when they stand for the same unordered
    /// pair, whatever their orientation.
    fn eq(&self, other: &UndirectedEdge) -> (r: bool) {
        self.0 / 2 == other.0 / 2
    }
}

impl vstd::std_specs::cmp::PartialEqSpecImpl for UndirectedEdge {
    open spec fn obeys_eq_spec() -> bool {
        true
    }

    open spec fn eq_spec(&self, other: &UndirectedEdge) -> bool {
        self.0 / 2 == other.0 / 2
    }
}

impl EdgeImpl for UndirectedEdge {
    open spec fn spec_code(self) -> int {
        self.0 as int
    }

    open spec fn spec_index(self) -> int {
        self.0 as int / 2
    }

    open spec fn spec_valid(self, n: int) -> bool {
        self.0 < directed_code_count(n)
    }

    open spec fn spec_ends(self, n: int) -> (int, int) {
        undirected_ends(n, self.0 as int)
    }

    open spec fn spec_none_index() -> int {
        usize::MAX as int / 2
    }

    open spec fn spec_new(n: int, u: int, v: int) -> Self {
        UndirectedEdge(undirected_code(n, u, v) as usize)
    }

    proof fn lemma_spec_new(n: int, u: int, v: int) {
        lemma_undirected_round_trip(n, u, v);
    }

    proof fn lemma_ends_valid(self, n: int) {
        lemma_valid_code_bounds(self.0 as int, n);
        lemma_upair_onto(n, self.0 as int / 2);
    }

    proof fn lemma_same_index_ends(self, other: Self, n: int) {
        assert(self.0 as int / 2 == other.0 as int / 2);
    }

    open spec fn spec_count(n: int) -> int {
        undirected_index_count(n)
    }

    open spec fn spec_from_index_ok(index: int) -> bool {
        2 * index <= usize::MAX
    }

    open spec fn spec_from_index(index: int) -> Self {
        UndirectedEdge((2 * index) as usize)
    }

    proof fn lemma_from_index_ok(index: int, n: CVertex) {
        lemma_double_lt(index, n as int);
    }

    proof fn lemma_valid_iff_index(self, n: int) {
        lemma_double_lt(self.0 as int / 2, n);
    }

    proof fn lemma_none_index_large(n: CVertex) {
        lemma_double_lt(0, n as int);
    }

    fn from_index(index: usize) -> (e: Self) {
        UndirectedEdge(2 * index)
    }

    fn to_index(self) -> (i: usize) {
        self.0 / 2
    }

    fn new(n: CVertex, u: CVertex, v: CVertex) -> (e: Self) {
        proof {
            if u < v {
                lemma_upair_round_trip(n as int, u as int, v as int);
            } else {
                lemma_upair_round_trip(n as int, v as int, u as int);
            }
            lemma_undirected_round_trip(n as int, u as int, v as int);
        }
        let nn = n as usize;
        let uu = u as usize;
        let vv = v as usize;
        let a = if uu < vv { uu } else { vv };
        let b = if uu < vv { vv } else { uu };
        proof {
            assert((nn - a - 1) * nn <= (nn - 1) * nn && nn <= (nn - a - 1) * nn)
                by (nonlinear_arith)
                requires 0 <= a, a + 2 <= nn;
            assert((nn - 1) * nn == nn * (nn - 1)) by (nonlinear_arith);
            assert(a * nn + b <= (nn - 1) * nn) by (nonlinear_arith)
                requires 0 <= a, a + 2 <= nn, 0 <= b, b + 1 <= nn;
        }
        let id = if a < (nn - 1) / 2 {
            a * nn + b
        } else {
            (nn - a - 1) * nn - b - 1
        };
        if uu < vv {
            UndirectedEdge(2 * id)
        } else {
            UndirectedEdge(2 * id + 1)
        }
    }

    fn ends(self, n: CVertex) -> (r: (CVertex, CVertex)) {
        proof {
            lemma_valid_code_bounds(self.0 as int, n as int);
            lemma_upair_onto(n as int, self.0 as int / 2);
        }
        let nn = n as usize;
        let e = self.0 / 2;
        let x = e / nn;
        let y = e % nn;
        let a = if x < y { x } else { nn - x - 2 };
        let b = if x < y { y } else { nn - y - 1 };
        if self.0 % 2 == 0 {
            (a as CVertex, b as CVertex)
        } else {
            (b as CVertex, a as CVertex)
        }
    }

    /// Reversal flips only the orientation bit: no recomputation, and the
    /// index is untouched.
    fn reverse(self, n: CVertex) -> (r: Self)
        ensures
            r.spec_index() == self.spec_index(),
    {
        proof {
            lemma_valid_code_bounds(self.0 as int, n as int);
            lemma_upair_onto(n as int, self.0 as int / 2);
        }
        if self.0 % 2 == 0 {
            UndirectedEdge(self.0 + 1)
        } else {
            UndirectedEdge(self.0 - 1)
        }
    }

    fn same_identity(self, other: Self) -> (b: bool) {
        self.0 / 2 == other.0 / 2
    }

    fn none_edge() -> (e: Self) {
        UndirectedEdge(usize::MAX - 1)
    }
}

impl UndirectedEdge {
    /// An undirected edge and its reverse share one property-map index:
    /// reversal flips the orientation bit and leaves the index alone.
    pub proof fn lemma_index_stable_under_reversal(self, n: int)
        requires
            0 <= n,
            self.spec_valid(n),
        ensures
            self.reverse_spec().spec_index() == self.spec_index(),
            self.reverse_spec().spec_valid(n),
            self.reverse_spec().spec_ends(n) == (self.spec_ends(n).1, self.spec_ends(n).0),
    {
        lemma_valid_code_bounds(self.0 as int, n);
        lemma_upair_onto(n, self.0 as int / 2);
    }

    /// The stored value after reversal: the orientation bit flipped.
    pub open spec fn reverse_spec(self) -> UndirectedEdge {
        if self.0 as int % 2 == 0 {
            UndirectedEdge((self.0 + 1) as usize)
        } else {
            UndirectedEdge((self.0 - 1) as usize)
        }
    }
}

impl EdgeImpl for DirectedEdge {
    open spec fn spec_code(self) -> int {
        self.0 as int
    }

    open spec fn spec_index(self) -> int {
        self.0 as int
    }

    open spec fn spec_valid(self, n: int) -> bool {
        self.0 < directed_code_count(n)
    }

    open spec fn spec_ends(self, n: int) -> (int, int) {
        directed_pair(n, self.0 as int)
    }

    open spec fn spec_none_index() -> int {
        usize::MAX as int
    }

    open spec fn spec_new(n: int, u: int, v: int) -> Self {
        DirectedEdge(directed_code(n, u, v) as usize)
    }

    proof fn lemma_spec_new(n: int, u: int, v: int) {
        lemma_directed_round_trip(n, u, v);
    }

    proof fn lemma_ends_valid(self, n: int) {
        assert(2 <= n) by (nonlinear_arith)
            requires 0 <= self.0 as int, (self.0 as int) < n * (n - 1), 0 <= n;
        lemma_directed_code_onto(n, self.0 as int);
    }

    proof fn lemma_same_index_ends(self, other: Self, n: int) {
    }

    open spec fn spec_count(n: int) -> int {
        directed_code_count(n)
    }

    open spec fn spec_from_index_ok(index: int) -> bool {
        index <= usize::MAX
    }

    open spec fn spec_from_index(index: int) -> Self {
        DirectedEdge(index as usize)
    }

    proof fn lemma_from_index_ok(index: int, n: CVertex) {
    }

    proof fn lemma_valid_iff_index(self, n: int) {
    }

    proof fn lemma_none_index_large(n: CVertex) {
    }

    fn from_index(index: usize) -> (e: Self) {
        DirectedEdge(index)
    }

    fn to_index(self) -> (i: usize) {
        self.0
    }

    fn new(n: CVertex, u: CVertex, v: CVertex) -> (e: Self) {
        proof {
            lemma_directed_round_trip(n as int, u as int, v as int);
        }
        let nn = n as usize;
        let uu = u as usize;
        let vv = v as usize;
        if vv < uu {
            DirectedEdge(uu * (nn - 1) + vv)
        } else {
            DirectedEdge(uu * (nn - 1) + vv - 1)
        }
    }

    fn ends(self, n: CVertex) -> (r: (CVertex, CVertex)) {
        proof {
            lemma_directed_code_onto(n as int, self.0 as int);
        }
        let nn = n as usize;
        let u = self.0 / (nn - 1);
        let r = self.0 % (nn - 1);
        if r < u {
            (u as CVertex, r as CVertex)
        } else {
            (u as CVertex, (r + 1) as CVertex)
        }
    }

    /// A directed edge is reversed by decoding and re-encoding: there is no
    /// shortcut in the directed layout.
    fn reverse(self, n: CVertex) -> (r: Self) {
        let (u, v) = self.ends(n);
        Self::new(n, v, u)
    }

    fn same_identity(self, other: Self) -> (b: bool) {
        self.0 == other.0
    }

    fn none_edge() -> (e: Self) {
        DirectedEdge(usize::MAX)
    }
}

} // verus!
