//! A dynamic forest kept as parent pointers: each vertex stores its parent,
//! a root stores itself.  Linking re-roots one tree and hangs it under the
//! other endpoint; cutting detaches a child from its parent.

use vstd::prelude::*;

verus! {

/// The vertex reached from `x` after at most `fuel` parent steps, stopping
/// at a fixpoint.
pub open spec fn root_of(parent: Seq<usize>, x: int, fuel: nat) -> int
    decreases fuel,
{
    if 0 <= x < parent.len() {
        if parent[x] as int == x || fuel == 0 {
            x
        } else {
            root_of(parent, parent[x] as int, (fuel - 1) as nat)
        }
    } else {
        x
    }
}

/// The chain of vertices from `x` toward its root, at most `fuel` steps
/// long: `x` first, then its parent, and so on until a fixpoint.
pub open spec fn chain_of(parent: Seq<usize>, x: int, fuel: nat) -> Seq<int>
    decreases fuel,
{
    if 0 <= x < parent.len() {
        if parent[x] as int == x || fuel == 0 {
            seq![x]
        } else {
            seq![x] + chain_of(parent, parent[x] as int, (fuel - 1) as nat)
        }
    } else {
        seq![x]
    }
}

/// All pointers stay below `n`.
pub open spec fn parents_in_range(parent: Seq<usize>) -> bool {
    forall|x: int| 0 <= x < parent.len() ==> (#[trigger] parent[x]) < parent.len()
}

/// The shape of a chain: it starts at `x`, follows the pointers, each
/// element but the last is no fixpoint, and if it is shorter than the fuel
/// allows, it ended at a fixpoint.  Within its length, `root_of` walks the
/// chain.
proof fn lemma_chain_props(parent: Seq<usize>, x: int, fuel: nat)
    requires
        parents_in_range(parent),
        0 <= x < parent.len(),
    ensures
        ({
            let ch = chain_of(parent, x, fuel);
            &&& 1 <= ch.len() <= fuel + 1
            &&& ch[0] == x
            &&& forall|j: int| 0 <= j < ch.len() ==> 0 <= #[trigger] ch[j] < parent.len()
            &&& forall|j: int|
                0 <= j < ch.len() - 1 ==> parent[#[trigger] ch[j]] as int == ch[j + 1]
                    && parent[ch[j]] as int != ch[j]
            &&& (ch.len() <= fuel ==> parent[ch[ch.len() - 1]] as int == ch[ch.len() - 1])
            &&& forall|f: int|
                0 <= f <= fuel ==> #[trigger] root_of(parent, x, f as nat) == ch[if f < ch.len()
                    - 1 {
                    f
                } else {
                    ch.len() - 1
                }]
        }),
    decreases fuel,
{
    let ch = chain_of(parent, x, fuel);
    if parent[x] as int == x || fuel == 0 {
        assert forall|f: int| 0 <= f <= fuel implies #[trigger] root_of(parent, x, f as nat) == x by {
        }
    } else {
        let y = parent[x] as int;
        lemma_chain_props(parent, y, (fuel - 1) as nat);
        let tail = chain_of(parent, y, (fuel - 1) as nat);
        assert(ch =~= seq![x] + tail);
        assert forall|f: int| 0 <= f <= fuel implies #[trigger] root_of(parent, x, f as nat)
            == ch[if f < ch.len() - 1 {
            f
        } else {
            ch.len() - 1
        }] by {
            if f == 0 {
            } else {
                assert(root_of(parent, x, f as nat) == root_of(parent, y, (f - 1) as nat));
                assert(root_of(parent, y, (f - 1) as nat) == tail[if f - 1 < tail.len() - 1 {
                    f - 1
                } else {
                    tail.len() - 1
                }]);
            }
        }
    }
}

/// Following the pointers for `a + b` steps is following them for `a`, then
/// for `b`.
proof fn lemma_root_of_add(parent: Seq<usize>, x: int, a: nat, b: nat)
    requires
        parents_in_range(parent),
        0 <= x < parent.len(),
    ensures
        root_of(parent, x, a + b) == root_of(parent, root_of(parent, x, a), b),
    decreases a,
{
    if parent[x] as int == x {
        lemma_root_of_fix(parent, x, a);
        lemma_root_of_fix(parent, x, b);
        lemma_root_of_fix(parent, x, a + b);
    } else if a == 0 {
    } else {
        lemma_root_of_add(parent, parent[x] as int, (a - 1) as nat, b);
    }
}

/// A fixpoint stays put, whatever the fuel.
proof fn lemma_root_of_fix(parent: Seq<usize>, x: int, fuel: nat)
    requires
        0 <= x < parent.len(),
        parent[x] as int == x,
    ensures
        root_of(parent, x, fuel) == x,
{
}

/// Under the forest invariant the chain from `x` has no repeated vertex:
/// a repeat would trap the walk in a cycle and no fixpoint could ever be
/// reached.
proof fn lemma_chain_distinct(parent: Seq<usize>, x: int)
    requires
        parents_in_range(parent),
        0 <= x < parent.len(),
        forall|z: int|
            0 <= z < parent.len() ==> parent[#[trigger] root_of(parent, z, parent.len())] as int
                == root_of(parent, z, parent.len()),
    ensures
        ({
            let ch = chain_of(parent, x, parent.len());
            &&& forall|j: int, l: int| 0 <= j < l < ch.len() ==> ch[j] != ch[l]
            &&& parent[ch[ch.len() - 1]] as int == ch[ch.len() - 1]
        }),
{
    let n = parent.len();
    let ch = chain_of(parent, x, n);
    lemma_chain_props(parent, x, n);
    let last = ch.len() - 1;
    // The last chain element is where root_of lands with the full fuel, and
    // the invariant makes that landing point a fixpoint.
    let nf = n as int;
    assert(root_of(parent, x, nf as nat) == ch[if nf < last {
        nf
    } else {
        last
    }]);
    assert(ch.len() <= n + 1);
    assert(nf >= last);
    assert(root_of(parent, x, n) == ch[last]);
    assert(parent[ch[last]] as int == ch[last]);
    assert forall|j: int, l: int| 0 <= j < l < ch.len() implies ch[j] != ch[l] by {
        if ch[j] == ch[l] {
            let f = last - l;
            // root_of from x lands on the chain at these indices.
            let jf = j + f;
            let lf = l + f;
            assert(root_of(parent, x, jf as nat) == ch[if jf < last {
                jf
            } else {
                last
            }]);
            assert(root_of(parent, x, lf as nat) == ch[if lf < last {
                lf
            } else {
                last
            }]);
            assert(root_of(parent, x, (j + f) as nat) == ch[j + f]);
            assert(root_of(parent, x, (l + f) as nat) == ch[last]);
            assert(root_of(parent, x, j as nat) == ch[if j < last {
                j
            } else {
                last
            }]);
            assert(root_of(parent, x, l as nat) == ch[if l < last {
                l
            } else {
                last
            }]);
            lemma_root_of_add(parent, x, j as nat, f as nat);
            lemma_root_of_add(parent, x, l as nat, f as nat);
            assert(root_of(parent, ch[j], f as nat) == ch[j + f]);
            assert(root_of(parent, ch[l], f as nat) == ch[last]);
            assert(ch[j + f] == ch[last]);
            // ch[j + f] sits strictly inside the chain, so it is no
            // fixpoint, yet the chain's end is one.
            assert(j + f < last);
            assert(parent[ch[j + f]] as int != ch[j + f]);
            assert(false);
        }
    }
}

/// Re-rooting one slot at itself preserves the forest shape: every chain
/// either misses the slot and ends where it did, or stops there early.
proof fn lemma_self_root_keeps_forest(p: Seq<usize>, p2: Seq<usize>, xv: usize, z: int, f: nat)
    requires
        parents_in_range(p),
        (xv as int) < p.len(),
        p2 == p.update(xv as int, xv),
        0 <= z < p.len(),
        p[root_of(p, z, f)] as int == root_of(p, z, f),
    ensures
        p2[root_of(p2, z, f)] as int == root_of(p2, z, f),
    decreases f,
{
    let x = xv as int;
    if z == x {
        assert(p2[x] as int == x);
        lemma_root_of_fix(p2, x, f);
    } else if p[z] as int == z {
        assert(root_of(p2, z, f) == z);
    } else if f > 0 {
        assert(root_of(p, z, f) == root_of(p, p[z] as int, (f - 1) as nat));
        lemma_self_root_keeps_forest(p, p2, xv, p[z] as int, (f - 1) as nat);
        assert(p2[z] == p[z]);
        assert(root_of(p2, z, f) == root_of(p2, p[z] as int, (f - 1) as nat));
    } else {
        // With no fuel the walk stops at `z`, which the premise then makes
        // a fixpoint, contradicting the branch.
        assert(root_of(p, z, 0) == z);
        assert(false);
    }
}

/// `v` occurs in the vertex list `ch`.
pub open spec fn in_chain(ch: Seq<int>, v: int) -> bool {
    exists|t: int| 0 <= t < ch.len() && ch[t] == v
}

/// A duplicate-free list of vertices below `n` has at most `n` entries.
proof fn lemma_distinct_bounded_len(ws: Seq<int>, n: int)
    requires
        forall|k: int, l: int| 0 <= k < l < ws.len() ==> ws[k] != ws[l],
        forall|k: int| 0 <= k < ws.len() ==> 0 <= #[trigger] ws[k] < n,
        n >= 0,
    ensures
        ws.len() <= n,
{
    broadcast use vstd::set::group_set_axioms;

    assert(ws.no_duplicates());
    ws.unique_seq_to_set();
    let range = vstd::set_lib::set_int_range(0, n);
    vstd::set_lib::lemma_int_range(0, n);
    assert forall|v: int| ws.to_set().contains(v) implies range.contains(v) by {
        let k = choose|k: int| 0 <= k < ws.len() && ws[k] == v;
        assert(0 <= ws[k] < n);
    }
    assert(ws.to_set().subset_of(range));
    vstd::set_lib::lemma_len_subset(ws.to_set(), range);
}

/// Following a written-out pointer path: from its head, the walk reaches
/// its fixpoint tail within the path's length.
proof fn lemma_follow(p: Seq<usize>, ws: Seq<int>, f: nat)
    requires
        ws.len() >= 1,
        forall|k: int| 0 <= k < ws.len() ==> 0 <= #[trigger] ws[k] < p.len(),
        forall|k: int| 0 <= k < ws.len() - 1 ==> p[#[trigger] ws[k]] as int == ws[k + 1],
        forall|k: int| 0 <= k < ws.len() - 1 ==> p[#[trigger] ws[k]] as int != ws[k],
        p[ws[ws.len() - 1]] as int == ws[ws.len() - 1],
        f >= ws.len() - 1,
    ensures
        root_of(p, ws[0], f) == ws[ws.len() - 1],
    decreases ws.len(),
{
    if ws.len() == 1 {
    } else {
        assert(p[ws[0]] as int == ws[1] && p[ws[0]] as int != ws[0]);
        assert(root_of(p, ws[0], f) == root_of(p, ws[1], (f - 1) as nat));
        let tail = ws.skip(1);
        assert forall|k: int| 0 <= k < tail.len() - 1 implies p[#[trigger] tail[k]] as int == tail[
            k + 1
        ] && p[tail[k]] as int != tail[k] by {
            assert(p[ws[k + 1]] as int == ws[k + 2] && p[ws[k + 1]] as int != ws[k + 1]);
        }
        assert(tail[tail.len() - 1] == ws[ws.len() - 1]);
        lemma_follow(p, tail, (f - 1) as nat);
    }
}

/// A position list with a member past `k` has a least member at or past
/// `k`, everything before which is no member.
proof fn lemma_least_meet(cz: Seq<int>, ch: Seq<int>, k: int)
    requires
        0 <= k,
        forall|k2: int| 0 <= k2 < k ==> !in_chain(ch, #[trigger] cz[k2]),
        exists|k2: int| k <= k2 < cz.len() && in_chain(ch, #[trigger] cz[k2]),
    ensures
        exists|k0: int|
            0 <= k0 < cz.len() && in_chain(ch, #[trigger] cz[k0]) && (forall|k2: int|
                0 <= k2 < k0 ==> !in_chain(ch, #[trigger] cz[k2])),
    decreases cz.len() - k,
{
    let kw = choose|k2: int| k <= k2 < cz.len() && in_chain(ch, #[trigger] cz[k2]);
    if in_chain(ch, cz[k]) {
        assert(0 <= k < cz.len() && in_chain(ch, cz[k]));
    } else {
        lemma_least_meet(cz, ch, k + 1);
    }
}

/// The shape of the pointers after reversing `xr`'s chain: `xr` is now
/// a fixpoint, the chain's pointers run backwards, and everything off
/// the chain is untouched.
spec fn reversal_shape(p0: Seq<usize>, p2: Seq<usize>, xr: int) -> bool {
    let ch = chain_of(p0, xr, p0.len());
    &&& parents_in_range(p0)
    &&& (forall|z2: int|
        0 <= z2 < p0.len() ==> p0[#[trigger] root_of(p0, z2, p0.len())] as int == root_of(
            p0,
            z2,
            p0.len(),
        ))
    &&& 0 <= xr < p0.len()
    &&& p2.len() == p0.len()
    &&& p2[xr] as int == xr
    &&& (forall|z2: int| 1 <= z2 < ch.len() ==> p2[#[trigger] ch[z2]] as int == ch[z2 - 1])
    &&& (forall|z2: int| 0 <= z2 < p0.len() && !ch.contains(z2) ==> p2[z2] == p0[z2])
}

/// Two walks that meet anywhere run to the same root: from the meeting
/// point both follow the same pointers.
#[verifier::rlimit(100)]
#[verifier::spinoff_prover]
proof fn lemma_meet_same_root(p0: Seq<usize>, xr: int, z: int)
    requires
        parents_in_range(p0),
        forall|z2: int|
            0 <= z2 < p0.len() ==> p0[#[trigger] root_of(p0, z2, p0.len())] as int == root_of(
                p0,
                z2,
                p0.len(),
            ),
        0 <= xr < p0.len(),
        0 <= z < p0.len(),
        exists|k2: int|
            0 <= k2 < chain_of(p0, z, p0.len()).len() && in_chain(
                chain_of(p0, xr, p0.len()),
                #[trigger] chain_of(p0, z, p0.len())[k2],
            ),
    ensures
        root_of(p0, z, p0.len()) == root_of(p0, xr, p0.len()),
{
    let n = p0.len();
    let ch = chain_of(p0, xr, n);
    lemma_chain_props(p0, xr, n);
    lemma_chain_distinct(p0, xr);
    let chlast = ch[ch.len() - 1];
    assert(root_of(p0, xr, n) == chlast) by {
        let f = n as int;
        assert(root_of(p0, xr, f as nat) == ch[if f < ch.len() - 1 {
            f
        } else {
            ch.len() - 1
        }]);
    }
    let cz = chain_of(p0, z, n);
    lemma_chain_props(p0, z, n);
    lemma_chain_distinct(p0, z);
    let czlast = cz[cz.len() - 1];
    assert(root_of(p0, z, n) == czlast) by {
        let f = n as int;
        assert(root_of(p0, z, f as nat) == cz[if f < cz.len() - 1 {
            f
        } else {
            cz.len() - 1
        }]);
    }
    let k0 = choose|k2: int| 0 <= k2 < cz.len() && in_chain(ch, #[trigger] cz[k2]);
    let t = choose|t: int| 0 <= t < ch.len() && ch[t] == cz[k0];
    let sz = cz.subrange(k0, cz.len() as int);
    let sh = ch.subrange(t, ch.len() as int);
    assert forall|k: int|
        0 <= k < sz.len() - 1 implies p0[#[trigger] sz[k]] as int == sz[k + 1] && p0[
    sz[k]] as int != sz[k] by {
        assert(p0[cz[k0 + k]] as int == cz[k0 + k + 1]);
        assert(p0[cz[k0 + k]] as int != cz[k0 + k]);
    }
    assert(sz[sz.len() - 1] == czlast && p0[czlast] as int == czlast);
    lemma_distinct_bounded_len(sz, n as int);
    lemma_follow(p0, sz, n);
    assert forall|k: int|
        0 <= k < sh.len() - 1 implies p0[#[trigger] sh[k]] as int == sh[k + 1] && p0[
    sh[k]] as int != sh[k] by {
        assert(p0[ch[t + k]] as int == ch[t + k + 1]);
        assert(p0[ch[t + k]] as int != ch[t + k]);
    }
    assert(sh[sh.len() - 1] == chlast && p0[chlast] as int == chlast);
    lemma_distinct_bounded_len(sh, n as int);
    lemma_follow(p0, sh, n);
    assert(sz[0] == sh[0]);
}

/// After the reversal, the walk from `z` runs along its old chain to
/// the first vertex on the reversed path, then down the reversal to
/// `xr`.
#[verifier::rlimit(100)]
#[verifier::spinoff_prover]
proof fn lemma_reversal_walk(p0: Seq<usize>, p2: Seq<usize>, xr: int, z: int, k0: int, t: int)
    requires
        reversal_shape(p0, p2, xr),
        parents_in_range(p2),
        0 <= z < p0.len(),
        0 <= k0 < chain_of(p0, z, p0.len()).len(),
        0 <= t < chain_of(p0, xr, p0.len()).len(),
        chain_of(p0, xr, p0.len())[t] == chain_of(p0, z, p0.len())[k0],
        forall|k2: int|
            0 <= k2 < k0 ==> !in_chain(
                chain_of(p0, xr, p0.len()),
                #[trigger] chain_of(p0, z, p0.len())[k2],
            ),
    ensures
        root_of(p2, z, p2.len()) == xr,
{
    let n = p0.len();
    let ch = chain_of(p0, xr, n);
    lemma_chain_props(p0, xr, n);
    lemma_chain_distinct(p0, xr);
    let cz = chain_of(p0, z, n);
    lemma_chain_props(p0, z, n);
    lemma_chain_distinct(p0, z);
    let ws = cz.take(k0) + ch.subrange(0, t + 1).reverse();
    assert(ws.len() == k0 + t + 1);
    assert forall|k: int| 0 <= k < ws.len() implies #[trigger] ws[k] == (if k < k0 {
        cz[k]
    } else {
        ch[t - (k - k0)]
    }) by {
    }
    assert forall|k: int| 0 <= k < ws.len() implies 0 <= #[trigger] ws[k] < n by {
    }
    assert forall|k: int|
        0 <= k < ws.len() - 1 implies p2[#[trigger] ws[k]] as int == ws[k + 1] && p2[
    ws[k]] as int != ws[k] by {
        if k < k0 {
            assert(!ch.contains(cz[k])) by {
                if ch.contains(cz[k]) {
                    let tt = choose|tt: int| 0 <= tt < ch.len() && ch[tt] == cz[k];
                    assert(in_chain(ch, cz[k]));
                }
            }
            assert(p2[cz[k]] == p0[cz[k]]);
            assert(p0[cz[k]] as int == cz[k + 1] && p0[cz[k]] as int != cz[k]);
            if k == k0 - 1 {
                assert(ws[k + 1] == ch[t]);
                assert(cz[k + 1] == ch[t]);
            }
        } else {
            let i = k - k0;
            assert(ws[k] == ch[t - i] && ws[k + 1] == ch[t - i - 1]);
            assert(p2[ch[t - i]] as int == ch[t - i - 1]);
            assert(ch[t - i] != ch[t - i - 1]);
        }
    }
    assert(ws[ws.len() - 1] == ch[0]);
    assert(ch[0] == xr);
    assert(p2[ws[ws.len() - 1]] as int == ws[ws.len() - 1]);
    assert forall|k: int, l: int| 0 <= k < l < ws.len() implies ws[k] != ws[l] by {
        if k < k0 && l >= k0 {
            assert(ws[k] == cz[k] && ws[l] == ch[t - (l - k0)]);
            assert(!in_chain(ch, cz[k]));
            if cz[k] == ch[t - (l - k0)] {
                assert(in_chain(ch, cz[k]));
            }
        }
    }
    lemma_distinct_bounded_len(ws, n as int);
    lemma_follow(p2, ws, n);
    assert(ws[0] == z) by {
        if k0 == 0 {
            assert(ws[0] == ch[t] && ch[t] == cz[0]);
        }
    }
    assert(root_of(p2, z, n) == xr);
}

/// A vertex whose old walk meets the reversed chain: from the first
/// meeting point the new pointers run down the reversal, so its new
/// root is `xr`; and the meeting point ties its old root to `xr`'s.
proof fn lemma_reversal_one_meet(p0: Seq<usize>, p2: Seq<usize>, xr: int, z: int)
    requires
        reversal_shape(p0, p2, xr),
        parents_in_range(p2),
        0 <= z < p0.len(),
        exists|k2: int|
            0 <= k2 < chain_of(p0, z, p0.len()).len() && in_chain(
                chain_of(p0, xr, p0.len()),
                #[trigger] chain_of(p0, z, p0.len())[k2],
            ),
    ensures
        root_of(p2, z, p2.len()) == xr,
        root_of(p0, z, p0.len()) == root_of(p0, xr, p0.len()),
{
    let n = p0.len();
    let ch = chain_of(p0, xr, n);
    let cz = chain_of(p0, z, n);
    lemma_least_meet(cz, ch, 0);
    let k0 = choose|k0: int|
        0 <= k0 < cz.len() && in_chain(ch, #[trigger] cz[k0]) && (forall|k2: int|
            0 <= k2 < k0 ==> !in_chain(ch, #[trigger] cz[k2]));
    let t = choose|t: int| 0 <= t < ch.len() && ch[t] == cz[k0];
    lemma_reversal_walk(p0, p2, xr, z, k0, t);
    lemma_meet_same_root(p0, xr, z);
}

/// A vertex whose old walk never touches the reversed chain: its walk
/// is untouched, so it keeps its old root, which is not `xr`'s.
#[verifier::rlimit(100)]
#[verifier::spinoff_prover]
proof fn lemma_reversal_one_clear(p0: Seq<usize>, p2: Seq<usize>, xr: int, z: int)
    requires
        reversal_shape(p0, p2, xr),
        parents_in_range(p2),
        0 <= z < p0.len(),
        forall|k2: int|
            0 <= k2 < chain_of(p0, z, p0.len()).len() ==> !in_chain(
                chain_of(p0, xr, p0.len()),
                #[trigger] chain_of(p0, z, p0.len())[k2],
            ),
    ensures
        root_of(p2, z, p2.len()) == root_of(p0, z, p0.len()),
        root_of(p0, z, p0.len()) != root_of(p0, xr, p0.len()),
        p2[root_of(p0, z, p0.len())] as int == root_of(p0, z, p0.len()),
{
    let n = p0.len();
    let ch = chain_of(p0, xr, n);
    lemma_chain_props(p0, xr, n);
    lemma_chain_distinct(p0, xr);
    let chlast = ch[ch.len() - 1];
    assert(root_of(p0, xr, n) == chlast) by {
        let f = n as int;
        assert(root_of(p0, xr, f as nat) == ch[if f < ch.len() - 1 {
            f
        } else {
            ch.len() - 1
        }]);
    }
    let cz = chain_of(p0, z, n);
    lemma_chain_props(p0, z, n);
    lemma_chain_distinct(p0, z);
    let czlast = cz[cz.len() - 1];
    assert(root_of(p0, z, n) == czlast) by {
        let f = n as int;
        assert(root_of(p0, z, f as nat) == cz[if f < cz.len() - 1 {
            f
        } else {
            cz.len() - 1
        }]);
    }
    assert forall|k: int| 0 <= k < cz.len() implies p2[#[trigger] cz[k]] == p0[cz[k]] by {
        assert(!in_chain(ch, cz[k]));
        assert(!ch.contains(cz[k])) by {
            if ch.contains(cz[k]) {
                let tt = choose|tt: int| 0 <= tt < ch.len() && ch[tt] == cz[k];
                assert(in_chain(ch, cz[k]));
            }
        }
    }
    lemma_distinct_bounded_len(cz, n as int);
    lemma_follow(p2, cz, n);
    assert(root_of(p2, z, n) == czlast);
    assert(czlast != chlast) by {
        if czlast == chlast {
            assert(ch.contains(chlast)) by {
                assert(ch[ch.len() - 1] == chlast);
            }
            assert(in_chain(ch, cz[cz.len() - 1]));
        }
    }
    assert(p2[czlast] == p0[czlast]);
}

/// One vertex's walk after the reversal: it ends at `xr` when its old
/// root was `xr`'s, and at its old root otherwise; either way at a
/// fixpoint.
proof fn lemma_reversal_one(p0: Seq<usize>, p2: Seq<usize>, xr: int, z: int)
    requires
        reversal_shape(p0, p2, xr),
        parents_in_range(p2),
        0 <= z < p0.len(),
    ensures
        p2[root_of(p2, z, p2.len())] as int == root_of(p2, z, p2.len()),
        root_of(p2, z, p2.len()) == (if root_of(p0, z, p0.len()) == root_of(p0, xr, p0.len()) {
            xr
        } else {
            root_of(p0, z, p0.len())
        }),
{
    let n = p0.len();
    let cz = chain_of(p0, z, n);
    let ch = chain_of(p0, xr, n);
    if exists|k2: int| 0 <= k2 < cz.len() && in_chain(ch, #[trigger] cz[k2]) {
        lemma_reversal_one_meet(p0, p2, xr, z);
    } else {
        lemma_reversal_one_clear(p0, p2, xr, z);
    }
}

/// Reversing the chain of `xr` keeps the pointers a forest: `xr`'s old
/// tree is re-rooted at `xr`, and every other tree keeps its root.
proof fn lemma_reversal_keeps_forest(p0: Seq<usize>, p2: Seq<usize>, xr: int)
    requires
        parents_in_range(p0),
        forall|z2: int|
            0 <= z2 < p0.len() ==> p0[#[trigger] root_of(p0, z2, p0.len())] as int == root_of(
                p0,
                z2,
                p0.len(),
            ),
        0 <= xr < p0.len(),
        p2.len() == p0.len(),
        p2[xr] as int == xr,
        ({
            let ch = chain_of(p0, xr, p0.len());
            &&& forall|z2: int| 1 <= z2 < ch.len() ==> p2[#[trigger] ch[z2]] as int == ch[z2 - 1]
            &&& forall|z2: int|
                0 <= z2 < p0.len() && !ch.contains(z2) ==> p2[z2] == p0[z2]
        }),
    ensures
        parents_in_range(p2),
        forall|z: int|
            0 <= z < p2.len() ==> p2[#[trigger] root_of(p2, z, p2.len())] as int == root_of(
                p2,
                z,
                p2.len(),
            ),
        forall|z: int|
            0 <= z < p2.len() ==> #[trigger] root_of(p2, z, p2.len()) == (if root_of(
                p0,
                z,
                p0.len(),
            ) == root_of(p0, xr, p0.len()) {
                xr
            } else {
                root_of(p0, z, p0.len())
            }),
{
    let n = p0.len();
    let ch = chain_of(p0, xr, n);
    lemma_chain_props(p0, xr, n);
    lemma_chain_distinct(p0, xr);
    assert forall|z: int| 0 <= z < p2.len() implies (#[trigger] p2[z]) < p2.len() by {
        if ch.contains(z) {
            let t = choose|t: int| 0 <= t < ch.len() && ch[t] == z;
            if t == 0 {
                assert(z == xr);
            } else {
                assert(p2[ch[t]] as int == ch[t - 1]);
            }
        }
    }
    assert forall|z: int|
        0 <= z < p2.len() implies p2[#[trigger] root_of(p2, z, p2.len())] as int == root_of(
        p2,
        z,
        p2.len(),
    ) && root_of(p2, z, p2.len()) == (if root_of(p0, z, p0.len()) == root_of(p0, xr, p0.len()) {
        xr
    } else {
        root_of(p0, z, p0.len())
    }) by {
        lemma_reversal_one(p0, p2, xr, z);
    }
}

/// The shape of the pointers after hanging the root `y` under `x`:
/// `y` now points at `x`, everything else is untouched, and `x`'s own
/// root is not `y`.
spec fn attach_shape(pm: Seq<usize>, p2: Seq<usize>, x: int, y: int) -> bool {
    &&& parents_in_range(pm)
    &&& (forall|z2: int|
        0 <= z2 < pm.len() ==> pm[#[trigger] root_of(pm, z2, pm.len())] as int == root_of(
            pm,
            z2,
            pm.len(),
        ))
    &&& 0 <= x < pm.len()
    &&& 0 <= y < pm.len()
    &&& pm[y] as int == y
    &&& root_of(pm, x, pm.len()) != y
    &&& p2.len() == pm.len()
    &&& p2[y] as int == x
    &&& (forall|z2: int| 0 <= z2 < pm.len() && z2 != y ==> p2[z2] == pm[z2])
}

/// A vertex whose walk ends elsewhere than `y`: its chain never touches
/// `y`, so the attachment leaves its walk and its root alone.
#[verifier::rlimit(100)]
#[verifier::spinoff_prover]
proof fn lemma_attach_other(pm: Seq<usize>, p2: Seq<usize>, x: int, y: int, z: int)
    requires
        attach_shape(pm, p2, x, y),
        0 <= z < pm.len(),
        root_of(pm, z, pm.len()) != y,
    ensures
        root_of(p2, z, p2.len()) == root_of(pm, z, pm.len()),
        p2[root_of(pm, z, pm.len())] as int == root_of(pm, z, pm.len()),
{
    let n = pm.len();
    let cz = chain_of(pm, z, n);
    lemma_chain_props(pm, z, n);
    lemma_chain_distinct(pm, z);
    let czlast = cz[cz.len() - 1];
    assert(root_of(pm, z, n) == czlast) by {
        let f = n as int;
        assert(root_of(pm, z, f as nat) == cz[if f < cz.len() - 1 {
            f
        } else {
            cz.len() - 1
        }]);
    }
    assert forall|k: int| 0 <= k < cz.len() implies #[trigger] cz[k] != y by {
        if k < cz.len() - 1 {
            assert(pm[cz[k]] as int != cz[k]);
        }
    }
    assert forall|k: int| 0 <= k < cz.len() implies p2[#[trigger] cz[k]] == pm[cz[k]] by {
        assert(cz[k] != y);
    }
    lemma_distinct_bounded_len(cz, n as int);
    lemma_follow(p2, cz, n);
    assert(root_of(p2, z, n) == czlast);
    assert(p2[czlast] == pm[czlast]);
}

/// A vertex whose walk ended at `y`: the walk now continues through the
/// new pointer to `x` and on to `x`'s root.
#[verifier::rlimit(100)]
#[verifier::spinoff_prover]
proof fn lemma_attach_same(pm: Seq<usize>, p2: Seq<usize>, x: int, y: int, z: int)
    requires
        attach_shape(pm, p2, x, y),
        0 <= z < pm.len(),
        root_of(pm, z, pm.len()) == y,
    ensures
        root_of(p2, z, p2.len()) == root_of(pm, x, pm.len()),
        p2[root_of(pm, x, pm.len())] as int == root_of(pm, x, pm.len()),
{
    let n = pm.len();
    let cz = chain_of(pm, z, n);
    lemma_chain_props(pm, z, n);
    lemma_chain_distinct(pm, z);
    let czlast = cz[cz.len() - 1];
    assert(root_of(pm, z, n) == czlast) by {
        let f = n as int;
        assert(root_of(pm, z, f as nat) == cz[if f < cz.len() - 1 {
            f
        } else {
            cz.len() - 1
        }]);
    }
    let cx = chain_of(pm, x, n);
    lemma_chain_props(pm, x, n);
    lemma_chain_distinct(pm, x);
    let cxlast = cx[cx.len() - 1];
    assert(root_of(pm, x, n) == cxlast) by {
        let f = n as int;
        assert(root_of(pm, x, f as nat) == cx[if f < cx.len() - 1 {
            f
        } else {
            cx.len() - 1
        }]);
    }
    // `y` stands only at the very end of `z`'s chain, and nowhere on
    // `x`'s: everywhere else it would be an interior fixpoint.
    assert forall|k: int| 0 <= k < cz.len() - 1 implies #[trigger] cz[k] != y by {
        assert(pm[cz[k]] as int != cz[k]);
    }
    assert forall|k: int| 0 <= k < cx.len() implies #[trigger] cx[k] != y by {
        if k < cx.len() - 1 {
            assert(pm[cx[k]] as int != cx[k]);
        }
    }
    let ws = cz + cx;
    assert(ws[0] == cz[0]);
    assert forall|k: int| 0 <= k < ws.len() implies 0 <= #[trigger] ws[k] < n by {
        if k < cz.len() {
            assert(ws[k] == cz[k]);
        } else {
            assert(ws[k] == cx[k - cz.len()]);
        }
    }
    assert forall|k: int|
        0 <= k < ws.len() - 1 implies p2[#[trigger] ws[k]] as int == ws[k + 1] && p2[
    ws[k]] as int != ws[k] by {
        if k < cz.len() - 1 {
            assert(ws[k] == cz[k] && ws[k + 1] == cz[k + 1]);
            assert(cz[k] != y);
            assert(p2[cz[k]] == pm[cz[k]]);
            assert(pm[cz[k]] as int == cz[k + 1] && pm[cz[k]] as int != cz[k]);
        } else if k == cz.len() - 1 {
            assert(ws[k] == czlast && czlast == y);
            assert(ws[k + 1] == cx[0] && cx[0] == x);
            assert(p2[y] as int == x);
            assert(x != y) by {
                if x == y {
                    lemma_root_of_fix(pm, y, n);
                }
            }
        } else {
            let i = k - cz.len();
            assert(ws[k] == cx[i] && ws[k + 1] == cx[i + 1]);
            assert(cx[i] != y);
            assert(p2[cx[i]] == pm[cx[i]]);
            assert(pm[cx[i]] as int == cx[i + 1] && pm[cx[i]] as int != cx[i]);
        }
    }
    assert(ws[ws.len() - 1] == cxlast);
    assert(p2[cxlast] == pm[cxlast] && pm[cxlast] as int == cxlast);
    assert forall|k: int, l: int| 0 <= k < l < ws.len() implies ws[k] != ws[l] by {
        if k < cz.len() && l >= cz.len() {
            assert(ws[k] == cz[k] && ws[l] == cx[l - cz.len()]);
            if cz[k] == cx[l - cz.len()] {
                assert(in_chain(cx, cz[k]));
                lemma_meet_same_root(pm, x, z);
            }
        } else if k >= cz.len() {
            assert(ws[k] == cx[k - cz.len()] && ws[l] == cx[l - cz.len()]);
        } else {
            assert(ws[k] == cz[k] && ws[l] == cz[l]);
        }
    }
    lemma_distinct_bounded_len(ws, n as int);
    lemma_follow(p2, ws, n);
    assert(root_of(p2, z, n) == cxlast);
}

/// Hanging the root `y` under `x` keeps the pointers a forest: `y`'s
/// old tree now answers to `x`'s root, and every other tree keeps its
/// own.
proof fn lemma_attach_keeps_forest(pm: Seq<usize>, p2: Seq<usize>, x: int, y: int)
    requires
        attach_shape(pm, p2, x, y),
    ensures
        parents_in_range(p2),
        forall|z: int|
            0 <= z < p2.len() ==> p2[#[trigger] root_of(p2, z, p2.len())] as int == root_of(
                p2,
                z,
                p2.len(),
            ),
        forall|z: int|
            0 <= z < p2.len() ==> #[trigger] root_of(p2, z, p2.len()) == (if root_of(
                pm,
                z,
                pm.len(),
            ) == y {
                root_of(pm, x, pm.len())
            } else {
                root_of(pm, z, pm.len())
            }),
{
    let n = pm.len();
    assert forall|z: int| 0 <= z < p2.len() implies (#[trigger] p2[z]) < p2.len() by {
        if z != y {
            assert(p2[z] == pm[z]);
        }
    }
    assert forall|z: int|
        0 <= z < p2.len() implies p2[#[trigger] root_of(p2, z, p2.len())] as int == root_of(
        p2,
        z,
        p2.len(),
    ) && root_of(p2, z, p2.len()) == (if root_of(pm, z, pm.len()) == y {
        root_of(pm, x, pm.len())
    } else {
        root_of(pm, z, pm.len())
    }) by {
        if root_of(pm, z, n) == y {
            lemma_attach_same(pm, p2, x, y, z);
        } else {
            lemma_attach_other(pm, p2, x, y, z);
        }
    }
}

/// The parent-pointer forest.  A root points at itself.
pub struct ParentPointerTree {
    /// The parent of each vertex; `parent[x] == x` at a root.
    pub parent: Vec<usize>,
}

impl ParentPointerTree {
    /// Every pointer stays in range, and every vertex reaches a root
    /// within `n` steps: the pointers form a forest.
    pub open spec fn inv(&self) -> bool {
        &&& parents_in_range(self.parent@)
        &&& forall|x: int|
            0 <= x < self.parent@.len() ==> self.parent@[#[trigger] root_of(
                self.parent@,
                x,
                self.parent@.len(),
            )] as int == root_of(self.parent@, x, self.parent@.len())
    }

    /// The forest's vertex count.
    pub open spec fn spec_n(&self) -> int {
        self.parent@.len() as int
    }

    /// The root of `x`'s tree, as a value.
    pub open spec fn spec_root(&self, x: int) -> int {
        root_of(self.parent@, x, self.parent@.len())
    }

    /// A forest of `n` single-vertex trees.
    pub fn new(n: usize) -> (t: Self)
        ensures
            t.inv(),
            t.spec_n() == n,
            forall|x: int| 0 <= x < n ==> t.parent@[x] == x,
    {
        let mut parent: Vec<usize> = Vec::new();
        let mut i: usize = 0;
        while i < n
            invariant
                i <= n,
                parent@.len() == i,
                forall|x: int| 0 <= x < i ==> #[trigger] parent@[x] == x,
            decreases n - i,
        {
            parent.push(i);
            i = i + 1;
        }
        let t = ParentPointerTree { parent };
        proof {
            assert forall|x: int|
                0 <= x < t.parent@.len() implies t.parent@[#[trigger] root_of(
                t.parent@,
                x,
                t.parent@.len(),
            )] as int == root_of(t.parent@, x, t.parent@.len()) by {
                lemma_root_of_fix(t.parent@, x, t.parent@.len());
            }
        }
        t
    }

    /// How many vertices the forest covers.
    pub fn num_vertices(&self) -> (r: usize)
        ensures
            r == self.spec_n(),
    {
        self.parent.len()
    }

    /// Whether the edge `(x, y)` is present: one of the two is the other's
    /// parent.
    pub fn has_edge(&self, x: usize, y: usize) -> (r: bool)
        requires
            x < self.spec_n(),
            y < self.spec_n(),
        ensures
            r == (x != y && (self.parent@[x as int] == y || self.parent@[y as int] == x)),
    {
        x != y && (self.parent[x] == y || self.parent[y] == x)
    }

    /// The root of `x`'s tree: follow parents to the fixpoint.
    pub fn find_root(&self, x: usize) -> (r: usize)
        requires
            self.inv(),
            x < self.spec_n(),
        ensures
            r == self.spec_root(x as int),
            self.parent@[r as int] == r,
            r < self.spec_n(),
    {
        let ghost n = self.parent@.len();
        let ghost target = root_of(self.parent@, x as int, n);
        let mut cur = x;
        let ghost mut k: nat = 0;
        while self.parent[cur] != cur
            invariant
                self.inv(),
                cur < n,
                k <= n,
                n == self.parent@.len(),
                root_of(self.parent@, cur as int, (n - k) as nat) == target,
                self.parent@[target] as int == target,
            decreases n - k,
        {
            proof {
                if k == n {
                    assert(root_of(self.parent@, cur as int, 0) == cur as int);
                    assert(cur as int == target);
                    assert(false);
                }
            }
            cur = self.parent[cur];
            proof {
                k = k + 1;
            }
        }
        cur
    }

    /// Whether `x` and `y` lie in one tree: their roots agree.
    pub fn is_connected(&self, x: usize, y: usize) -> (r: bool)
        requires
            self.inv(),
            x < self.spec_n(),
            y < self.spec_n(),
        ensures
            r == (self.spec_root(x as int) == self.spec_root(y as int)),
    {
        self.find_root(x) == self.find_root(y)
    }

    /// Reverse the chain from `x` to its root, making `x` the root of its
    /// tree.  Every pointer on the chain turns around; everything off the
    /// chain is untouched.
    #[verifier::rlimit(100)]
    pub fn make_root(&mut self, x: usize)
        requires
            old(self).inv(),
            x < old(self).spec_n(),
        ensures
            final(self).inv(),
            final(self).parent@.len() == old(self).parent@.len(),
            final(self).parent@[x as int] == x,
            ({
                let ch = chain_of(old(self).parent@, x as int, old(self).parent@.len());
                &&& forall|j: int|
                    1 <= j < ch.len() ==> final(self).parent@[#[trigger] ch[j]] as int == ch[j - 1]
                &&& forall|z: int|
                    0 <= z < old(self).parent@.len() && !ch.contains(z) ==> final(self).parent@[z]
                        == old(self).parent@[z]
            }),
            forall|z: int|
                0 <= z < old(self).spec_n() ==> #[trigger] root_of(
                    final(self).parent@,
                    z,
                    old(self).parent@.len(),
                ) == (if old(self).spec_root(z) == old(self).spec_root(x as int) {
                    x as int
                } else {
                    old(self).spec_root(z)
                }),
    {
        let ghost p0 = self.parent@;
        let ghost n = p0.len();
        let ghost ch = chain_of(p0, x as int, n);
        proof {
            lemma_chain_props(p0, x as int, n);
            lemma_chain_distinct(p0, x as int);
        }
        let mut prev = x;
        let mut cur = x;
        let mut p = self.parent[cur];
        let ghost mut k: int = 0;
        while p != cur
            invariant
                n == self.parent@.len(),
                n == p0.len(),
                x < n,
                cur < n,
                prev < n,
                p < n,
                ch == chain_of(p0, x as int, n),
                1 <= ch.len() <= n + 1,
                0 <= k < ch.len(),
                cur as int == ch[k],
                k >= 1 ==> prev as int == ch[k - 1],
                k == 0 ==> prev == x && cur == x,
                p == p0[cur as int],
                k >= 1 ==> self.parent@[x as int] == x,
                forall|j: int| 1 <= j < k ==> self.parent@[#[trigger] ch[j]] as int == ch[j - 1],
                forall|z: int|
                    0 <= z < n && !ch.take(k).contains(z) ==> self.parent@[z] == p0[z],
                forall|j: int, l: int| 0 <= j < l < ch.len() ==> ch[j] != ch[l],
                forall|j: int| 0 <= j < ch.len() ==> 0 <= #[trigger] ch[j] < n,
                forall|j: int|
                    0 <= j < ch.len() - 1 ==> p0[#[trigger] ch[j]] as int == ch[j + 1]
                        && p0[ch[j]] as int != ch[j],
                p0[ch[ch.len() - 1]] as int == ch[ch.len() - 1],
            decreases ch.len() - k,
        {
            proof {
                if k == ch.len() - 1 {
                    assert(p as int == cur as int);
                    assert(false);
                }
                assert(ch.take(k + 1) =~= ch.take(k).push(ch[k]));
            }
            self.parent.set(cur, prev);
            prev = cur;
            cur = p;
            p = self.parent[cur];
            proof {
                assert(ch[k + 1] == cur as int);
                assert(!ch.take(k + 1).contains(cur as int)) by {
                    if ch.take(k + 1).contains(cur as int) {
                        let j = choose|j: int|
                            0 <= j < k + 1 && #[trigger] ch.take(k + 1)[j] == cur as int;
                        assert(ch[j] == ch[k + 1]);
                    }
                }
                assert(p == p0[cur as int]);
                assert forall|z: int|
                    0 <= z < n && !ch.take(k + 1).contains(z) implies self.parent@[z] == p0[z] by {
                    assert(ch.take(k + 1)[k] == ch[k]);
                    assert(z != ch[k]);
                    assert(!ch.take(k).contains(z)) by {
                        if ch.take(k).contains(z) {
                            let j = choose|j: int| 0 <= j < k && #[trigger] ch.take(k)[j] == z;
                            assert(ch.take(k + 1)[j] == z);
                        }
                    }
                }
                k = k + 1;
            }
        }
        proof {
            let last = ch.len() - 1;
            if k < last {
                assert(p0[ch[k]] as int != ch[k]);
                assert(false);
            }
            assert(k == last);
        }
        self.parent.set(cur, prev);
        proof {
            let last = ch.len() - 1;
            assert(ch.take(last) =~= ch.drop_last());
            assert forall|z: int|
                0 <= z < n && !ch.contains(z) implies final(self).parent@[z] == p0[z] by {
                assert(!ch.take(last).contains(z)) by {
                    if ch.take(last).contains(z) {
                        let j = choose|j: int|
                            0 <= j < last && #[trigger] ch.take(last)[j] == z;
                        assert(ch[j] == z);
                    }
                }
                assert(z != ch[last]);
            }
            if k == 0 {
                assert(final(self).parent@[x as int] == x);
            } else {
                assert(ch[0] == x as int);
                assert(ch[last] != ch[0]);
                assert(final(self).parent@[x as int] == x);
                assert(final(self).parent@[ch[last]] as int == prev as int);
                assert(prev as int == ch[last - 1]);
            }
            assert forall|j: int|
                1 <= j < ch.len() implies final(self).parent@[#[trigger] ch[j]] as int == ch[j
                - 1] by {
                if j < k {
                } else {
                    assert(j == last);
                }
            }
            lemma_reversal_keeps_forest(p0, final(self).parent@, x as int);
        }
    }

    /// Join the trees of `x` and `y` by the edge `(x, y)`: re-root `y`'s
    /// tree at `y`, then hang it under `x`.  `None` exactly when the two
    /// already share a tree, which the forest must keep free of cycles.
    /// On success the chain from `y` to its old root is reversed, `y` now
    /// points at `x`, and everything off that chain is untouched.
    pub fn link(&mut self, x: usize, y: usize) -> (r: Option<(usize, usize)>)
        requires
            old(self).inv(),
            x < old(self).spec_n(),
            y < old(self).spec_n(),
        ensures
            final(self).inv(),
            final(self).parent@.len() == old(self).parent@.len(),
            r is Some <==> old(self).spec_root(x as int) != old(self).spec_root(y as int),
            r is Some ==> r->0 == (x, y) && final(self).parent@[y as int] == x,
            r is None ==> final(self).parent@ == old(self).parent@,
            r is Some ==> ({
                let ch = chain_of(old(self).parent@, y as int, old(self).parent@.len());
                &&& forall|j: int|
                    1 <= j < ch.len() ==> final(self).parent@[#[trigger] ch[j]] as int == ch[j - 1]
                &&& forall|z: int|
                    0 <= z < old(self).parent@.len() && !ch.contains(z) ==> final(self).parent@[z]
                        == old(self).parent@[z]
            }),
            r is Some ==> forall|z: int|
                0 <= z < old(self).spec_n() ==> #[trigger] root_of(
                    final(self).parent@,
                    z,
                    old(self).parent@.len(),
                ) == (if old(self).spec_root(z) == old(self).spec_root(y as int) {
                    old(self).spec_root(x as int)
                } else {
                    old(self).spec_root(z)
                }),
    {
        if self.is_connected(x, y) {
            None
        } else {
            let ghost p0 = self.parent@;
            proof {
                lemma_chain_props(p0, y as int, p0.len());
                lemma_chain_distinct(p0, y as int);
            }
            self.make_root(y);
            let ghost pm = self.parent@;
            self.parent.set(y, x);
            proof {
                let n = p0.len();
                let ch = chain_of(p0, y as int, n);
                assert(ch[0] == y as int);
                assert(ch.contains(ch[0]));
                assert forall|j: int|
                    1 <= j < ch.len() implies final(self).parent@[#[trigger] ch[j]] as int == ch[j
                    - 1] by {
                    assert(ch[j] != ch[0]);
                    assert(pm[ch[j]] as int == ch[j - 1]);
                }
                // `x` kept its old root through the re-rooting, and that
                // root is not `y`: the two trees were separate.
                assert(root_of(p0, x as int, n) != root_of(p0, y as int, n));
                assert(root_of(pm, x as int, n) == root_of(p0, x as int, n));
                assert(root_of(pm, x as int, n) != y as int) by {
                    if root_of(p0, x as int, n) == y as int {
                        assert(p0[root_of(p0, x as int, n)] as int == root_of(p0, x as int, n));
                        lemma_root_of_fix(p0, y as int, n);
                    }
                }
                assert(pm[y as int] == y);
                let p2 = final(self).parent@;
                assert(attach_shape(pm, p2, x as int, y as int));
                lemma_attach_keeps_forest(pm, p2, x as int, y as int);
                assert forall|z: int|
                    0 <= z < n implies #[trigger] root_of(p2, z, n) == (if root_of(p0, z, n)
                    == root_of(p0, y as int, n) {
                    root_of(p0, x as int, n)
                } else {
                    root_of(p0, z, n)
                }) by {
                    if root_of(p0, z, n) == root_of(p0, y as int, n) {
                        assert(root_of(pm, z, n) == y as int);
                    } else {
                        assert(root_of(pm, z, n) == root_of(p0, z, n));
                        assert(root_of(pm, z, n) != y as int) by {
                            if root_of(p0, z, n) == y as int {
                                assert(p0[root_of(p0, z, n)] as int == root_of(p0, z, n));
                                lemma_root_of_fix(p0, y as int, n);
                            }
                        }
                    }
                }
            }
            Some((x, y))
        }
    }

    /// Remove the edge `(x, y)`: whichever endpoint is the other's child
    /// becomes a root.  The edge must be present.  The forest shape is
    /// kept: chains only shorten.
    pub fn cut(&mut self, e: (usize, usize))
        requires
            old(self).inv(),
            e.0 < old(self).spec_n(),
            e.1 < old(self).spec_n(),
            old(self).parent@[e.0 as int] == e.1 || old(self).parent@[e.1 as int] == e.0,
            e.0 != e.1,
        ensures
            final(self).inv(),
            final(self).parent@.len() == old(self).parent@.len(),
            old(self).parent@[e.0 as int] == e.1 ==> final(self).parent@ == old(
                self,
            ).parent@.update(e.0 as int, e.0),
            old(self).parent@[e.0 as int] != e.1 ==> final(self).parent@ == old(
                self,
            ).parent@.update(e.1 as int, e.1),
    {
        let (x, y) = e;
        let ghost p0 = self.parent@;
        if self.parent[x] == y {
            self.parent.set(x, x);
            proof {
                assert forall|z: int|
                    0 <= z < self.parent@.len() implies self.parent@[#[trigger] root_of(
                    self.parent@,
                    z,
                    self.parent@.len(),
                )] as int == root_of(self.parent@, z, self.parent@.len()) by {
                    lemma_self_root_keeps_forest(p0, self.parent@, x, z, self.parent@.len());
                }
            }
        } else {
            self.parent.set(y, y);
            proof {
                assert forall|z: int|
                    0 <= z < self.parent@.len() implies self.parent@[#[trigger] root_of(
                    self.parent@,
                    z,
                    self.parent@.len(),
                )] as int == root_of(self.parent@, z, self.parent@.len()) by {
                    lemma_self_root_keeps_forest(p0, self.parent@, y, z, self.parent@.len());
                }
            }
        }
    }

    /// The endpoints of a handed-out edge.
    pub fn ends(&self, e: &(usize, usize)) -> (r: (usize, usize))
        ensures
            r == *e,
    {
        (e.0, e.1)
    }

    /// Remove every edge: every vertex becomes its own root again.
    pub fn clear(&mut self)
        ensures
            final(self).inv(),
            final(self).spec_n() == old(self).spec_n(),
            forall|x: int| 0 <= x < final(self).spec_n() ==> final(self).parent@[x] == x,
    {
        let len = self.parent.len();
        let mut i: usize = 0;
        while i < len
            invariant
                i <= len,
                self.parent@.len() == len,
                forall|x: int| 0 <= x < i ==> #[trigger] self.parent@[x] == x,
            decreases len - i,
        {
            self.parent.set(i, i);
            i = i + 1;
        }
        proof {
            assert forall|x: int|
                0 <= x < self.parent@.len() implies self.parent@[#[trigger] root_of(
                self.parent@,
                x,
                self.parent@.len(),
            )] as int == root_of(self.parent@, x, self.parent@.len()) by {
                lemma_root_of_fix(self.parent@, x, self.parent@.len());
            }
        }
    }
}

} // verus!
