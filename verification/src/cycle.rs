//! Cycle detection by iterative peeling: repeatedly discard any record that
//! no remaining record pulls in; what survives a full pass participates in
//! the evidence for a dependency cycle.

use vstd::prelude::*;

use crate::graph::{
    acyclic, back_edges_bounded, edge, edges_symmetric, fwd_edges_bounded, is_cycle,
    lemma_find_dup,
};
use crate::record::FileInfo;

verus! {

/// Working state for the peeling pass: one remaining record index and its
/// remaining includers.
pub struct CircCheck {
    pub idx: usize,
    pub included_by: Vec<usize>,
}

/// The indices still in the working set.
pub open spec fn residual(all: Seq<CircCheck>) -> Seq<int> {
    all.map_values(|c: CircCheck| c.idx as int)
}

/// Builds a walk of `k + 1` nodes that ends at `v0` and follows includer
/// edges backwards inside `r`: every node of `r` has an includer in `r`, so
/// the walk never gets stuck.
proof fn build_chain(data: Seq<FileInfo>, r: Seq<int>, v0: int, k: nat) -> (c: Seq<int>)
    requires
        r.contains(v0),
        forall|t: int| 0 <= t < r.len() ==> 0 <= #[trigger] r[t] < data.len(),
        forall|t: int|
            0 <= t < r.len() ==> exists|u: int| r.contains(u) && edge(data, u, #[trigger] r[t]),
    ensures
        c.len() == k + 1,
        c[0] == v0,
        forall|t: int| 0 <= t < c.len() ==> r.contains(#[trigger] c[t]),
        forall|t: int| 0 <= t < c.len() ==> 0 <= #[trigger] c[t] < data.len(),
        forall|t: int| 0 <= t < c.len() - 1 ==> edge(data, c[t + 1], #[trigger] c[t]),
    decreases k,
{
    if k == 0 {
        let c = seq![v0];
        assert(c[0] == v0);
        let w0 = choose|w0: int| 0 <= w0 < r.len() && r[w0] == v0;
        assert(0 <= r[w0] < data.len());
        c
    } else {
        let c0 = build_chain(data, r, v0, (k - 1) as nat);
        let last = c0[k - 1];
        assert(r.contains(last));
        let w = choose|w: int| 0 <= w < r.len() && r[w] == last;
        assert(exists|u: int| r.contains(u) && edge(data, u, r[w]));
        let u = choose|u: int| r.contains(u) && edge(data, u, last);
        assert(0 <= u < data.len());
        let c = c0.push(u);
        assert forall|t: int| 0 <= t < c.len() - 1 implies edge(data, c[t + 1], #[trigger] c[t]) by {
            if t < c0.len() - 1 {
                assert(edge(data, c0[t + 1], c0[t]));
            } else {
                assert(c[t] == last && c[t + 1] == u);
            }
        }
        c
    }
}

/// A repeated node on a backwards walk yields a dependency cycle: the
/// stretch between the two visits, read in reverse, closes on itself.
proof fn lemma_cycle_from_dup(data: Seq<FileInfo>, c: Seq<int>, i: int, j: int)
    requires
        0 <= i < j < c.len(),
        c[i] == c[j],
        forall|t: int| 0 <= t < c.len() ==> 0 <= #[trigger] c[t] < data.len(),
        forall|t: int| 0 <= t < c.len() - 1 ==> edge(data, c[t + 1], #[trigger] c[t]),
    ensures
        !acyclic(data),
{
    let q = c.subrange(i + 1, j + 1).reverse();
    assert(q.len() == j - i);
    assert forall|t: int| 0 <= t < q.len() implies q[t] == c[j - t] by {
        assert(q[t] == c.subrange(i + 1, j + 1)[q.len() - 1 - t]);
    }
    assert forall|t: int| 0 <= t < q.len() implies 0 <= #[trigger] q[t] < data.len() by {
        assert(q[t] == c[j - t]);
    }
    assert forall|t: int| 0 <= t < q.len() - 1 implies edge(data, #[trigger] q[t], q[t + 1]) by {
        assert(q[t] == c[j - t] && q[t + 1] == c[j - t - 1]);
        assert(edge(data, c[(j - t - 1) + 1], c[j - t - 1]));
    }
    assert(q[q.len() - 1] == c[i + 1] && q[0] == c[j]);
    assert(edge(data, c[i + 1], c[i]));
    assert(c[j] == c[i]);
    assert(is_cycle(data, q));
    assert(!acyclic(data));
}

/// A nonempty set of indices in which every member has an includer that is
/// also a member cannot be part of an acyclic graph: following includers
/// long enough must revisit a node, and the revisited stretch is a cycle.
#[verifier::rlimit(100)]
#[verifier::spinoff_prover]
proof fn lemma_stuck_residual_cycle(data: Seq<FileInfo>, r: Seq<int>)
    requires
        r.len() >= 1,
        forall|t: int| 0 <= t < r.len() ==> 0 <= #[trigger] r[t] < data.len(),
        forall|t: int|
            0 <= t < r.len() ==> exists|u: int| r.contains(u) && edge(data, u, #[trigger] r[t]),
    ensures
        !acyclic(data),
{
    let n = data.len() as int;
    assert(r.contains(r[0]));
    let c = build_chain(data, r, r[0], (n + 1) as nat);
    lemma_find_dup(c, n);
    let (i, j) = choose|i: int, j: int| 0 <= i < j < c.len() && c[i] == c[j];
    lemma_cycle_from_dup(data, c, i, j);
}

/// The entries of `v` that differ from `x`, with membership otherwise
/// unchanged.
fn filter_out(v: &Vec<usize>, x: usize) -> (r: Vec<usize>)
    ensures
        forall|y: usize| #[trigger] r@.contains(y) <==> (v@.contains(y) && y != x),
{
    let mut r: Vec<usize> = Vec::new();
    let mut i: usize = 0;
    while i < v.len()
        invariant
            i <= v@.len(),
            forall|w: int| 0 <= w < r@.len() ==> v@.contains(#[trigger] r@[w]) && r@[w] != x,
            forall|w: int| 0 <= w < i && v@[w] != x ==> r@.contains(#[trigger] v@[w]),
        decreases v@.len() - i,
    {
        if v[i] != x {
            let ghost prev = r@;
            r.push(v[i]);
            proof {
                assert(v@.contains(v@[i as int]));
                assert forall|w: int|
                    0 <= w < i + 1 && v@[w] != x implies r@.contains(#[trigger] v@[w]) by {
                    if w < i {
                        let ww = choose|ww: int| 0 <= ww < prev.len() && prev[ww] == v@[w];
                        assert(r@[ww] == v@[w]);
                    } else {
                        assert(r@[prev.len() as int] == v@[w]);
                    }
                }
            }
        }
        i = i + 1;
    }
    assert forall|y: usize| #[trigger] r@.contains(y) implies (v@.contains(y) && y != x) by {
        let w = choose|w: int| 0 <= w < r@.len() && r@[w] == y;
        assert(v@.contains(r@[w]) && r@[w] != x);
    }
    assert forall|y: usize| v@.contains(y) && y != x implies #[trigger] r@.contains(y) by {
        let w = choose|w: int| 0 <= w < v@.len() && v@[w] == y;
        assert(r@.contains(v@[w]));
    }
    r
}

/// A plain copy of an index list.
fn copy_indices(v: &Vec<usize>) -> (r: Vec<usize>)
    ensures
        r@ == v@,
{
    let mut r: Vec<usize> = Vec::new();
    let mut i: usize = 0;
    while i < v.len()
        invariant
            i <= v@.len(),
            r@ == v@.take(i as int),
        decreases v@.len() - i,
    {
        r.push(v[i]);
        proof {
            assert(r@ =~= v@.take((i + 1) as int));
        }
        i = i + 1;
    }
    proof {
        assert(r@ =~= v@);
    }
    r
}

/// Whether the forward graph is a directed acyclic graph. `None` means it
/// is. Otherwise the result is a witness pair `(a, b)`: after peeling away
/// everything that nothing remaining pulls in, `a` is the first surviving
/// record and `b` one of its surviving includers, and the graph holds at
/// least one cycle.
pub fn process_step_check_circular(data: &Vec<FileInfo>) -> (r: Option<(usize, usize)>)
    requires
        fwd_edges_bounded(data@),
        back_edges_bounded(data@),
        edges_symmetric(data@),
    ensures
        r is None ==> acyclic(data@),
        r matches Some(w) ==> w.0 < data@.len() && w.1 < data@.len()
            && data@[w.1 as int].includes@.contains(w.0) && !acyclic(data@),
{
    let n = data.len();
    let mut all: Vec<CircCheck> = Vec::new();
    let mut idx: usize = 0;
    while idx < n
        invariant
            n == data@.len(),
            idx <= n,
            all@.len() == idx,
            forall|t: int|
                0 <= t < idx ==> (#[trigger] all@[t]).idx == t && all@[t].included_by@
                    == data@[t].included_by@,
        decreases n - idx,
    {
        let cc = CircCheck { idx, included_by: copy_indices(&data[idx].included_by) };
        all.push(cc);
        idx = idx + 1;
    }
    proof {
        assert forall|v: int| 0 <= v < n implies residual(all@).contains(v) by {
            assert(residual(all@)[v] == v);
        }
        assert forall|t: int, v: usize|
            0 <= t < all@.len() implies ((#[trigger] all@[t].included_by@.contains(v)) <==> (
        data@[all@[t].idx as int].included_by@.contains(v) && residual(all@).contains(
            v as int,
        ))) by {
            if data@[all@[t].idx as int].included_by@.contains(v) {
                assert(v < n);
            }
        }
        assert forall|p: Seq<int>, t: int|
            #![trigger is_cycle(data@, p), p[t]]
            is_cycle(data@, p) && 0 <= t < p.len() implies residual(all@).contains(p[t]) by {
            assert(0 <= p[t] < n);
        }
    }
    loop
        invariant
            n == data@.len(),
            fwd_edges_bounded(data@),
            back_edges_bounded(data@),
            edges_symmetric(data@),
            residual(all@).no_duplicates(),
            forall|t: int| 0 <= t < all@.len() ==> (#[trigger] all@[t]).idx < n,
            forall|t: int, v: usize|
                0 <= t < all@.len() ==> ((#[trigger] all@[t].included_by@.contains(v)) <==> (
                data@[all@[t].idx as int].included_by@.contains(v) && residual(all@).contains(
                    v as int,
                ))),
            forall|p: Seq<int>, t: int|
                #![trigger is_cycle(data@, p), p[t]]
                is_cycle(data@, p) && 0 <= t < p.len() ==> residual(all@).contains(p[t]),
        ensures
            n == data@.len(),
            residual(all@).no_duplicates(),
            forall|t: int| 0 <= t < all@.len() ==> (#[trigger] all@[t]).idx < n,
            forall|t: int, v: usize|
                0 <= t < all@.len() ==> ((#[trigger] all@[t].included_by@.contains(v)) <==> (
                data@[all@[t].idx as int].included_by@.contains(v) && residual(all@).contains(
                    v as int,
                ))),
            forall|p: Seq<int>, t: int|
                #![trigger is_cycle(data@, p), p[t]]
                is_cycle(data@, p) && 0 <= t < p.len() ==> residual(all@).contains(p[t]),
            forall|t: int| 0 <= t < all@.len() ==> (#[trigger] all@[t]).included_by@.len() > 0,
        decreases all@.len(),
    {
        let mut i: usize = 0;
        while i < all.len() && all[i].included_by.len() > 0
            invariant
                i <= all@.len(),
                forall|t: int| 0 <= t < i ==> (#[trigger] all@[t]).included_by@.len() > 0,
            decreases all@.len() - i,
        {
            i = i + 1;
        }
        if i == all.len() {
            break ;
        }
        let idx_this = all[i].idx;
        proof {
            assert(all@[i as int].included_by@.len() == 0);
            assert forall|p: Seq<int>, t: int|
                #![trigger is_cycle(data@, p), p[t]]
                is_cycle(data@, p) && 0 <= t < p.len() implies p[t] != idx_this by {
                if p[t] == idx_this {
                    let s = if t == 0 {
                        p.len() - 1
                    } else {
                        t - 1
                    };
                    assert(edge(data@, p[s], p[t]));
                    let u = p[s];
                    assert(residual(all@).contains(u));
                    assert(data@[u].includes@.contains(idx_this));
                    assert(0 <= u < n);
                    assert(data@[idx_this as int].included_by@.contains(u as usize));
                    assert(all@[i as int].included_by@.contains(u as usize));
                    assert(false);
                }
            }
        }
        let ghost pre = all@;
        all.remove(i);
        let ghost mid = all@;
        proof {
            assert(residual(mid) =~= residual(pre).remove(i as int));
            assert forall|w: int| residual(mid).contains(w) implies residual(pre).contains(w) && w
                != idx_this by {
                let t = choose|t: int| 0 <= t < residual(mid).len() && residual(mid)[t] == w;
                if t < i {
                    assert(residual(pre)[t] == w);
                } else {
                    assert(residual(pre)[t + 1] == w);
                }
                if w == idx_this {
                    assert(residual(pre)[i as int] == idx_this);
                    assert(residual(pre).no_duplicates());
                    assert(false);
                }
            }
            assert forall|w: int|
                residual(pre).contains(w) && w != idx_this implies residual(mid).contains(w) by {
                let t = choose|t: int| 0 <= t < residual(pre).len() && residual(pre)[t] == w;
                if t < i {
                    assert(residual(mid)[t] == w);
                } else {
                    assert(t != i);
                    assert(residual(mid)[t - 1] == w);
                }
            }
            assert forall|a: int, b: int|
                0 <= a < mid.len() && 0 <= b < mid.len() && a != b implies residual(mid)[a]
                != residual(mid)[b] by {
                let pa = if a < i {
                    a
                } else {
                    a + 1
                };
                let pb = if b < i {
                    b
                } else {
                    b + 1
                };
                assert(residual(mid)[a] == residual(pre)[pa]);
                assert(residual(mid)[b] == residual(pre)[pb]);
            }
            assert(residual(mid).no_duplicates());
        }
        let mut t: usize = 0;
        while t < all.len()
            invariant
                n == data@.len(),
                t <= all@.len(),
                all@.len() == mid.len(),
                forall|s: int| 0 <= s < all@.len() ==> (#[trigger] all@[s]).idx == mid[s].idx,
                forall|s: int| t <= s < all@.len() ==> all@[s] == mid[s],
                forall|s: int, v: usize|
                    0 <= s < t ==> ((#[trigger] all@[s].included_by@.contains(v)) <==> (
                    mid[s].included_by@.contains(v) && v != idx_this)),
            decreases all@.len() - t,
        {
            let nb = filter_out(&all[t].included_by, idx_this);
            let ghost before = all@;
            all[t].included_by = nb;
            proof {
                assert forall|s: int| 0 <= s < all@.len() && s != t implies all@[s]
                    == before[s] by {}
            }
            t = t + 1;
        }
        proof {
            assert(residual(all@) =~= residual(mid));
            assert forall|s: int, v: usize|
                0 <= s < all@.len() implies ((#[trigger] all@[s].included_by@.contains(v)) <==> (
            data@[all@[s].idx as int].included_by@.contains(v) && residual(all@).contains(
                v as int,
            ))) by {
                let pidx = if s < i {
                    s
                } else {
                    s + 1
                };
                assert(mid[s] == pre[pidx]);
                assert(pre[pidx].included_by@.contains(v) <==> (
                data@[pre[pidx].idx as int].included_by@.contains(v) && residual(pre).contains(
                    v as int,
                )));
            }
            assert forall|p: Seq<int>, tt: int|
                #![trigger is_cycle(data@, p), p[tt]]
                is_cycle(data@, p) && 0 <= tt < p.len() implies residual(all@).contains(p[tt]) by {
                assert(residual(pre).contains(p[tt]));
                assert(p[tt] != idx_this);
                assert(residual(mid).contains(p[tt]));
            }
        }
    }
    if all.len() == 0 {
        proof {
            assert forall|p: Seq<int>| !is_cycle(data@, p) by {
                if is_cycle(data@, p) {
                    assert(residual(all@).contains(p[0]));
                    assert(false);
                }
            }
        }
        None
    } else {
        let a = all[0].idx;
        let b = all[0].included_by[0];
        proof {
            assert(all@[0].included_by@.contains(b));
            assert(data@[a as int].included_by@.contains(b));
            assert(b < n);
            assert(data@[b as int].includes@.contains(a));
            let r = residual(all@);
            assert forall|tx: int| 0 <= tx < r.len() implies exists|u: int|
                r.contains(u) && edge(data@, u, #[trigger] r[tx]) by {
                let tt = tx;
                let v = r[tt];
                assert(all@[tt].idx == v);
                assert(all@[tt].included_by@.len() > 0);
                let u0 = all@[tt].included_by@[0];
                assert(all@[tt].included_by@.contains(u0));
                assert(data@[v].included_by@.contains(u0) && r.contains(u0 as int));
                assert(u0 < n);
                assert(data@[u0 as int].includes@.contains(v as usize));
                assert(edge(data@, u0 as int, v));
            }
            assert forall|t: int| 0 <= t < r.len() implies 0 <= #[trigger] r[t]
                < data@.len() by {
                assert(all@[t].idx < n);
            }
            assert(r.len() >= 1);
            lemma_stuck_residual_cycle(data@, r);
        }
        Some((a, b))
    }
}

} // verus!
