//! The dependency graph over registry indices, as the cycle detector and the
//! closure pass see it: direct steps along either edge direction, chains,
//! cycles, and reachability.

use vstd::prelude::*;
use vstd::seq_lib::*;
use vstd::set_lib::{lemma_int_range, lemma_len_subset, set_int_range};

use crate::record::FileInfo;

verus! {

/// The direct neighbours of `v`: the forward list (`includes`) or the
/// backward list (`included_by`).
pub open spec fn adjacent(data: Seq<FileInfo>, fwd: bool, v: int) -> Seq<usize> {
    if fwd {
        data[v].includes@
    } else {
        data[v].included_by@
    }
}

/// One step from `a` to `b` along the chosen direction.
pub open spec fn step(data: Seq<FileInfo>, fwd: bool, a: int, b: int) -> bool {
    &&& 0 <= a < data.len()
    &&& 0 <= b < data.len()
    &&& adjacent(data, fwd, a).contains(b as usize)
}

/// A forward dependency edge: `a` directly pulls `b` in.
pub open spec fn edge(data: Seq<FileInfo>, a: int, b: int) -> bool {
    step(data, true, a, b)
}

/// A walk of at least one step along the chosen direction.
pub open spec fn is_chain(data: Seq<FileInfo>, fwd: bool, p: Seq<int>) -> bool {
    &&& p.len() >= 2
    &&& forall|t: int| 0 <= t < p.len() - 1 ==> step(data, fwd, #[trigger] p[t], p[t + 1])
}

/// `b` is reachable from `a` in one or more steps along the chosen
/// direction.
pub open spec fn reaches(data: Seq<FileInfo>, fwd: bool, a: int, b: int) -> bool {
    exists|p: Seq<int>| is_chain(data, fwd, p) && p[0] == a && p[p.len() - 1] == b
}

/// A dependency cycle: consecutive forward edges, wrapping around.
pub open spec fn is_cycle(data: Seq<FileInfo>, p: Seq<int>) -> bool {
    &&& p.len() >= 1
    &&& forall|t: int| 0 <= t < p.len() ==> 0 <= #[trigger] p[t] < data.len()
    &&& forall|t: int| 0 <= t < p.len() - 1 ==> edge(data, #[trigger] p[t], p[t + 1])
    &&& edge(data, p[p.len() - 1], p[0])
}

/// No dependency cycle exists.
pub open spec fn acyclic(data: Seq<FileInfo>) -> bool {
    forall|p: Seq<int>| !is_cycle(data, p)
}

/// Every entry of every forward edge list is a registry index.
pub open spec fn fwd_edges_bounded(data: Seq<FileInfo>) -> bool {
    forall|i: int, v: usize|
        0 <= i < data.len() && (#[trigger] data[i].includes@.contains(v)) ==> v < data.len()
}

/// Every entry of every backward edge list is a registry index.
pub open spec fn back_edges_bounded(data: Seq<FileInfo>) -> bool {
    forall|i: int, v: usize|
        0 <= i < data.len() && (#[trigger] data[i].included_by@.contains(v)) ==> v < data.len()
}

/// The two edge lists mirror each other.
pub open spec fn edges_symmetric(data: Seq<FileInfo>) -> bool {
    forall|u: usize, v: usize|
        u < data.len() && v < data.len() ==> ((#[trigger] data[u as int].includes@.contains(v))
            <==> data[v as int].included_by@.contains(u))
}

/// Pushing one element extends a list's membership by exactly that element
/// and keeps a duplicate-free list duplicate-free when the element is new.
pub(crate) proof fn lemma_push_contains<T>(s: Seq<T>, x: T)
    ensures
        forall|y: T| #[trigger] s.push(x).contains(y) <==> (s.contains(y) || y == x),
        s.no_duplicates() && !s.contains(x) ==> s.push(x).no_duplicates(),
{
    assert forall|y: T| #[trigger] s.push(x).contains(y) implies (s.contains(y) || y == x) by {
        let w = choose|w: int| 0 <= w < s.push(x).len() && s.push(x)[w] == y;
        if w < s.len() {
            assert(s[w] == y);
        }
    }
    assert forall|y: T| s.contains(y) || y == x implies #[trigger] s.push(x).contains(y) by {
        if s.contains(y) {
            let w = choose|w: int| 0 <= w < s.len() && s[w] == y;
            assert(s.push(x)[w] == y);
        } else {
            assert(s.push(x)[s.len() as int] == y);
        }
    }
    if s.no_duplicates() && !s.contains(x) {
        assert forall|a: int, b: int|
            0 <= a < s.push(x).len() && 0 <= b < s.push(x).len() && a != b implies s.push(x)[a]
            != s.push(x)[b] by {
            if a < s.len() && b < s.len() {
                assert(s[a] != s[b]);
            } else if a < s.len() {
                assert(s.contains(s[a]));
            } else if b < s.len() {
                assert(s.contains(s[b]));
            }
        }
    }
}

/// Extending a walk by one step keeps it a walk to the new endpoint.
pub proof fn lemma_reaches_step(data: Seq<FileInfo>, fwd: bool, a: int, v: int, w: int)
    requires
        reaches(data, fwd, a, v),
        step(data, fwd, v, w),
    ensures
        reaches(data, fwd, a, w),
{
    let p = choose|p: Seq<int>| is_chain(data, fwd, p) && p[0] == a && p[p.len() - 1] == v;
    let q = p.push(w);
    assert forall|t: int| 0 <= t < q.len() - 1 implies step(data, fwd, #[trigger] q[t], q[t + 1]) by {
        if t < p.len() - 1 {
            assert(step(data, fwd, p[t], p[t + 1]));
        } else {
            assert(q[t] == v && q[t + 1] == w);
        }
    }
    assert(is_chain(data, fwd, q) && q[0] == a && q[q.len() - 1] == w);
}

/// A single step is already a walk.
pub proof fn lemma_step_reaches(data: Seq<FileInfo>, fwd: bool, a: int, b: int)
    requires
        step(data, fwd, a, b),
    ensures
        reaches(data, fwd, a, b),
{
    let p = seq![a, b];
    assert(p[0] == a && p[p.len() - 1] == b);
    assert forall|t: int| 0 <= t < p.len() - 1 implies step(data, fwd, #[trigger] p[t], p[t + 1]) by {
        assert(t == 0);
    }
    assert(is_chain(data, fwd, p));
}

/// A sequence longer than the range its values lie in repeats a value.
pub proof fn lemma_find_dup(c: Seq<int>, n: int)
    requires
        n >= 0,
        c.len() > n,
        forall|t: int| 0 <= t < c.len() ==> 0 <= #[trigger] c[t] < n,
    ensures
        exists|i: int, j: int| 0 <= i < j < c.len() && c[i] == c[j],
{
    if !(exists|i: int, j: int| 0 <= i < j < c.len() && c[i] == c[j]) {
        assert forall|i: int, j: int|
            0 <= i < c.len() && 0 <= j < c.len() && i != j implies c[i] != c[j] by {
            if i < j {
                assert(!(0 <= i < j < c.len() && c[i] == c[j]));
            } else {
                assert(!(0 <= j < i < c.len() && c[j] == c[i]));
            }
        }
        assert(c.no_duplicates());
        c.unique_seq_to_set();
        assert forall|x: int| c.to_set().contains(x) implies set_int_range(0, n).contains(x) by {
            assert(c.contains(x));
            let w = choose|w: int| 0 <= w < c.len() && c[w] == x;
            assert(0 <= c[w] < n);
        }
        lemma_int_range(0, n);
        lemma_len_subset(c.to_set(), set_int_range(0, n));
        assert(false);
    }
}

/// A duplicate-free sequence of registry indices has at most one entry per
/// index.
pub proof fn lemma_distinct_bounded_len(s: Seq<usize>, n: int)
    requires
        n >= 0,
        s.no_duplicates(),
        forall|t: int| 0 <= t < s.len() ==> (#[trigger] s[t]) < n,
    ensures
        s.len() <= n,
{
    let c = s.map_values(|u: usize| u as int);
    if s.len() > n {
        lemma_find_dup(c, n);
        let (i, j) = choose|i: int, j: int| 0 <= i < j < c.len() && c[i] == c[j];
        assert(s[i] == s[j]);
        assert(false);
    }
}

/// A record that reaches itself along forward edges closes a cycle.
pub proof fn lemma_self_reach_cycle(data: Seq<FileInfo>, i: int)
    requires
        reaches(data, true, i, i),
    ensures
        !acyclic(data),
{
    let p = choose|p: Seq<int>| is_chain(data, true, p) && p[0] == i && p[p.len() - 1] == i;
    let q = p.drop_last();
    assert(q.len() == p.len() - 1 >= 1);
    assert forall|t: int| 0 <= t < q.len() implies 0 <= #[trigger] q[t] < data.len() by {
        if t < q.len() - 1 {
            assert(step(data, true, p[t], p[t + 1]));
        } else {
            assert(step(data, true, p[t], p[t + 1]));
        }
    }
    assert forall|t: int| 0 <= t < q.len() - 1 implies edge(data, #[trigger] q[t], q[t + 1]) by {
        assert(step(data, true, p[t], p[t + 1]));
    }
    assert(step(data, true, p[p.len() - 2], p[p.len() - 1]));
    assert(q[q.len() - 1] == p[p.len() - 2] && q[0] == p[0]);
    assert(p[p.len() - 1] == p[0]);
    assert(edge(data, q[q.len() - 1], q[0]));
    assert(is_cycle(data, q));
    assert(!acyclic(data));
}

/// Cycles are a function of the forward edge lists alone.
pub proof fn lemma_cycles_stable(pre: Seq<FileInfo>, post: Seq<FileInfo>)
    requires
        pre.len() == post.len(),
        forall|i: int| 0 <= i < pre.len() ==> (#[trigger] post[i]).includes@ == pre[i].includes@,
    ensures
        forall|p: Seq<int>| #[trigger] is_cycle(post, p) <==> is_cycle(pre, p),
        acyclic(post) <==> acyclic(pre),
{
    assert forall|p: Seq<int>| #[trigger] is_cycle(post, p) implies is_cycle(pre, p) by {
        assert forall|t: int| 0 <= t < p.len() - 1 implies edge(pre, #[trigger] p[t], p[t + 1]) by {
            assert(edge(post, p[t], p[t + 1]));
        }
        assert(edge(post, p[p.len() - 1], p[0]));
        assert(edge(pre, p[p.len() - 1], p[0]));
    }
    assert forall|p: Seq<int>| #[trigger] is_cycle(pre, p) implies is_cycle(post, p) by {
        assert forall|t: int| 0 <= t < p.len() - 1 implies edge(post, #[trigger] p[t], p[t + 1]) by {
            assert(edge(pre, p[t], p[t + 1]));
        }
        assert(edge(pre, p[p.len() - 1], p[0]));
        assert(edge(post, p[p.len() - 1], p[0]));
    }
    if acyclic(pre) {
        assert forall|p: Seq<int>| !is_cycle(post, p) by {
            if is_cycle(post, p) {
                assert(is_cycle(pre, p));
            }
        }
    }
    if acyclic(post) {
        assert forall|p: Seq<int>| !is_cycle(pre, p) by {
            if is_cycle(pre, p) {
                assert(is_cycle(post, p));
            }
        }
    }
}

} // verus!
