//! Disjoint sets over a graph's vertices, for the algorithms that grow
//! forests: each vertex stores its set's representative directly, so
//! membership queries are one lookup and a union relabels the smaller
//! bookkeeping in one sweep.  The contracts state the whole effect of a
//! union on every vertex's representative.

use vstd::prelude::*;
use crate::graphs::Incidence;

verus! {

/// How many slots are their own representative: the number of sets.
pub open spec fn root_count(s: Seq<usize>) -> int
    decreases s.len(),
{
    if s.len() == 0 {
        0
    } else {
        root_count(s.drop_last()) + if s.last() as int == s.len() - 1 {
            1int
        } else {
            0int
        }
    }
}

/// An identity map is all roots.
proof fn lemma_root_count_identity(s: Seq<usize>)
    requires
        forall|j: int| 0 <= j < s.len() ==> s[j] == j,
    ensures
        root_count(s) == s.len(),
    decreases s.len(),
{
    if s.len() > 0 {
        assert forall|j: int| 0 <= j < s.drop_last().len() implies s.drop_last()[j] == j by {
            assert(s[j] == j);
        }
        lemma_root_count_identity(s.drop_last());
    }
}

/// Two maps that agree on which slots are roots have the same count.
proof fn lemma_root_count_pointwise(s1: Seq<usize>, s2: Seq<usize>)
    requires
        s1.len() == s2.len(),
        forall|j: int| 0 <= j < s1.len() ==> ((s1[j] as int == j) <==> (s2[j] as int == j)),
    ensures
        root_count(s1) == root_count(s2),
    decreases s1.len(),
{
    if s1.len() > 0 {
        assert forall|j: int|
            0 <= j < s1.drop_last().len() implies ((s1.drop_last()[j] as int == j) <==> (
        s2.drop_last()[j] as int == j)) by {
            assert((s1[j] as int == j) <==> (s2[j] as int == j));
        }
        lemma_root_count_pointwise(s1.drop_last(), s2.drop_last());
    }
}

/// A slot that is its own representative makes the count positive.
proof fn lemma_root_count_at(s: Seq<usize>, i: int)
    requires
        0 <= i < s.len(),
        s[i] as int == i,
    ensures
        root_count(s) >= 1,
        root_count(s) <= s.len(),
    decreases s.len(),
{
    if i == s.len() - 1 {
        lemma_root_count_nonneg(s.drop_last());
    } else {
        lemma_root_count_at(s.drop_last(), i);
    }
}

/// The count stays between zero and the length.
proof fn lemma_root_count_nonneg(s: Seq<usize>)
    ensures
        0 <= root_count(s) <= s.len(),
    decreases s.len(),
{
    if s.len() > 0 {
        lemma_root_count_nonneg(s.drop_last());
    }
}

/// Updating one slot changes the count by that slot's difference.
proof fn lemma_root_count_update(s: Seq<usize>, i: int, c: usize)
    requires
        0 <= i < s.len(),
    ensures
        root_count(s.update(i, c)) == root_count(s) - (if s[i] as int == i {
            1int
        } else {
            0int
        }) + (if c as int == i {
            1int
        } else {
            0int
        }),
    decreases s.len(),
{
    let t = s.update(i, c);
    if i == s.len() - 1 {
        assert(t.drop_last() =~= s.drop_last());
    } else {
        assert(t.drop_last() =~= s.drop_last().update(i, c));
        lemma_root_count_update(s.drop_last(), i, c);
    }
}

/// Disjoint sets over `[0, n)`: each slot holds its set's representative.
pub struct UnionFind {
    /// The representative of each element's set.
    pub parent: Vec<usize>,
    /// How many sets there are.
    pub sets: usize,
}

impl UnionFind {
    /// Every slot holds an in-range representative that represents itself,
    /// and the set counter matches the number of representatives.
    pub open spec fn inv(&self) -> bool {
        &&& forall|x: int|
            0 <= x < self.parent@.len() ==> (#[trigger] self.parent@[x]) < self.parent@.len()
        &&& forall|x: int|
            0 <= x < self.parent@.len() ==> self.parent@[#[trigger] self.parent@[x] as int]
                == self.parent@[x]
        &&& self.sets == root_count(self.parent@)
    }

    /// How many elements the structure covers.
    pub open spec fn spec_n(&self) -> int {
        self.parent@.len() as int
    }

    /// The representative of `x`'s set.
    pub open spec fn rep(&self, x: int) -> int {
        self.parent@[x] as int
    }

    /// `n` singleton sets.
    pub fn new(n: usize) -> (ds: Self)
        ensures
            ds.inv(),
            ds.spec_n() == n,
            ds.sets == n,
            forall|x: int| 0 <= x < n ==> ds.rep(x) == x,
    {
        let mut parent: Vec<usize> = Vec::new();
        let mut i: usize = 0;
        while i < n
            invariant
                i <= n,
                parent@.len() == i,
                forall|x: int| 0 <= x < i ==> #[trigger] parent@[x] == x,
            decreases n - i,
        {
            parent.push(i);
            i = i + 1;
        }
        proof {
            lemma_root_count_identity(parent@);
        }
        UnionFind { parent, sets: n }
    }

    /// Join the sets of `u` and `v`: afterwards everything that was in
    /// `v`'s set answers to `u`'s old representative, everything else is
    /// untouched, and the set count drops by one exactly when the two sets
    /// were distinct.
    pub fn union(&mut self, u: usize, v: usize)
        requires
            old(self).inv(),
            u < old(self).spec_n(),
            v < old(self).spec_n(),
        ensures
            final(self).inv(),
            final(self).spec_n() == old(self).spec_n(),
            forall|x: int|
                0 <= x < old(self).spec_n() ==> final(self).rep(x) == (if old(self).rep(x) == old(
                    self,
                ).rep(v as int) && old(self).rep(u as int) != old(self).rep(v as int) {
                    old(self).rep(u as int)
                } else {
                    old(self).rep(x)
                }),
            final(self).sets == old(self).sets - (if old(self).rep(u as int) == old(self).rep(
                v as int,
            ) {
                0int
            } else {
                1int
            }),
    {
        let ru = self.parent[u];
        let rv = self.parent[v];
        if ru != rv {
            let ghost p0 = self.parent@;
            let n = self.parent.len();
            let mut x: usize = 0;
            while x < n
                invariant
                    n == self.parent@.len(),
                    n == p0.len(),
                    self.sets == root_count(p0),
                    x <= n,
                    ru < n,
                    rv < n,
                    ru != rv,
                    p0[ru as int] == ru,
                    p0[rv as int] == rv,
                    forall|y: int|
                        0 <= y < x ==> #[trigger] self.parent@[y] == (if p0[y] == rv {
                            ru
                        } else {
                            p0[y]
                        }),
                    forall|y: int| x <= y < n ==> #[trigger] self.parent@[y] == p0[y],
                decreases n - x,
            {
                if self.parent[x] == rv {
                    self.parent.set(x, ru);
                }
                x = x + 1;
            }
            proof {
                // Only the old representative of `v` changed root status:
                // restore it and the root pattern matches the old map.
                let p1 = self.parent@;
                let p2 = p1.update(rv as int, rv);
                assert forall|j: int|
                    0 <= j < p0.len() implies ((p0[j] as int == j) <==> (p2[j] as int == j)) by {
                    if j != rv as int {
                        if p0[j] == rv {
                            assert(p1[j] == ru);
                            assert(p0[rv as int] == rv);
                            assert(p0[p0[j] as int] == p0[j]);
                        }
                    }
                }
                lemma_root_count_pointwise(p0, p2);
                lemma_root_count_update(p2, rv as int, ru);
                assert(p2.update(rv as int, ru) =~= p1);
                assert(root_count(p1) == root_count(p0) - 1);
                lemma_root_count_at(p0, rv as int);
                assert forall|y: int| 0 <= y < n implies p1[#[trigger] p1[y] as int] == p1[y] by {
                    if p0[y] == rv {
                        assert(p1[y] == ru);
                        assert(p1[ru as int] == ru);
                    } else {
                        let r = p0[y] as int;
                        assert(p0[r] == p0[y]);
                        assert(p1[r] == p0[r]);
                    }
                }
            }
            self.sets = self.sets - 1;
        }
    }

    /// Whether `u` and `v` share a set.
    pub fn in_same_set(&self, u: usize, v: usize) -> (r: bool)
        requires
            self.inv(),
            u < self.spec_n(),
            v < self.spec_n(),
        ensures
            r == (self.rep(u as int) == self.rep(v as int)),
    {
        self.parent[u] == self.parent[v]
    }

    /// How many sets there are.
    pub fn num_sets(&self) -> (r: usize)
        ensures
            r == self.sets,
    {
        self.sets
    }

    /// Back to singletons, one per vertex of `g`.
    pub fn reset<G: Incidence>(&mut self, g: &G)
        requires
            g.wf(),
            old(self).spec_n() == g.spec_n(),
        ensures
            final(self).inv(),
            final(self).spec_n() == old(self).spec_n(),
            final(self).sets == final(self).spec_n(),
            forall|x: int| 0 <= x < final(self).spec_n() ==> final(self).rep(x) == x,
    {
        let n = self.parent.len();
        let mut i: usize = 0;
        while i < n
            invariant
                n == self.parent@.len(),
                i <= n,
                forall|x: int| 0 <= x < i ==> #[trigger] self.parent@[x] == x,
            decreases n - i,
        {
            self.parent.set(i, i);
            i = i + 1;
        }
        proof {
            lemma_root_count_identity(self.parent@);
        }
        self.sets = n;
    }
}

/// Fresh disjoint sets over a graph's vertices, offered by every graph with
/// the incidence capability.
pub trait WithUnionFind: Incidence {
    /// One singleton set per vertex.
    fn new_unionfind(&self) -> (ds: UnionFind)
        requires
            self.wf(),
        ensures
            ds.inv(),
            ds.spec_n() == self.spec_n(),
            ds.sets == self.spec_n(),
            forall|x: int| 0 <= x < self.spec_n() ==> ds.rep(x) == x,
    ;
}

impl<G: Incidence> WithUnionFind for G {
    fn new_unionfind(&self) -> (ds: UnionFind) {
        UnionFind::new(self.num_vertices())
    }
}

} // verus!
