//! Transitive closure of the inclusion relations: for each record, every
//! record reachable along forward edges and every record reachable along
//! backward edges, each collected once by an explicit worklist walk with a
//! visited set.

use vstd::prelude::*;

use crate::graph::{
    adjacent, back_edges_bounded, fwd_edges_bounded, is_chain, lemma_distinct_bounded_len,
    lemma_push_contains, lemma_reaches_step, lemma_step_reaches, reaches, step,
};
use crate::record::FileInfo;

verus! {

/// The closure pass touched only the three closure lists; every other field
/// is as in `o`.
pub open spec fn closure_record(o: FileInfo, fi: FileInfo) -> bool {
    &&& fi.name@ == o.name@
    &&& fi.data@ == o.data@
    &&& fi.stab_file == o.stab_file
    &&& fi.source_file == o.source_file
    &&& fi.text_lines == o.text_lines
    &&& fi.lines == o.lines
    &&& fi.parsed_includes@ == o.parsed_includes@
    &&& fi.includes@ == o.includes@
    &&& fi.included_by@ == o.included_by@
    &&& fi.lines_with_all_includes == o.lines_with_all_includes
    &&& fi.lines_contributes_total == o.lines_contributes_total
    &&& fi.lines_contributes_self == o.lines_contributes_self
}

/// Reachability is a function of the two edge lists alone.
pub(crate) proof fn lemma_reaches_stable(pre: Seq<FileInfo>, post: Seq<FileInfo>)
    requires
        pre.len() == post.len(),
        forall|i: int|
            0 <= i < pre.len() ==> (#[trigger] post[i]).includes@ == pre[i].includes@
                && post[i].included_by@ == pre[i].included_by@,
    ensures
        forall|fwd: bool, a: int, b: int|
            #[trigger] reaches(post, fwd, a, b) <==> reaches(pre, fwd, a, b),
{
    assert forall|fwd: bool, a: int, b: int| #[trigger] reaches(post, fwd, a, b) implies reaches(
        pre,
        fwd,
        a,
        b,
    ) by {
        let p = choose|p: Seq<int>|
            is_chain(post, fwd, p) && p[0] == a && p[p.len() - 1] == b;
        assert forall|t: int| 0 <= t < p.len() - 1 implies step(pre, fwd, #[trigger] p[t], p[t + 1]) by {
            assert(step(post, fwd, p[t], p[t + 1]));
        }
        assert(is_chain(pre, fwd, p));
    }
    assert forall|fwd: bool, a: int, b: int| #[trigger] reaches(pre, fwd, a, b) implies reaches(
        post,
        fwd,
        a,
        b,
    ) by {
        let p = choose|p: Seq<int>| is_chain(pre, fwd, p) && p[0] == a && p[p.len() - 1] == b;
        assert forall|t: int| 0 <= t < p.len() - 1 implies step(post, fwd, #[trigger] p[t], p[t + 1]) by {
            assert(step(pre, fwd, p[t], p[t + 1]));
        }
        assert(is_chain(post, fwd, p));
    }
}

/// A set that holds the start's direct neighbours and is closed under
/// neighbours holds the endpoint of every walk from the start.
proof fn lemma_closed_complete(
    data: Seq<FileInfo>,
    fwd: bool,
    start: int,
    vs: Seq<usize>,
    p: Seq<int>,
)
    requires
        data.len() <= usize::MAX,
        is_chain(data, fwd, p),
        p[0] == start,
        forall|b: int|
            0 <= b < adjacent(data, fwd, start).len() ==> vs.contains(
                #[trigger] adjacent(data, fwd, start)[b],
            ),
        forall|t: int, b: int|
            0 <= t < vs.len() && 0 <= b < adjacent(data, fwd, vs[t] as int).len() ==> vs.contains(
                #[trigger] adjacent(data, fwd, vs[t] as int)[b],
            ),
    ensures
        vs.contains(p[p.len() - 1] as usize),
    decreases p.len(),
{
    if p.len() == 2 {
        assert(step(data, fwd, p[0], p[1]));
        assert(adjacent(data, fwd, start).contains(p[1] as usize));
        let b = choose|b: int|
            0 <= b < adjacent(data, fwd, start).len() && adjacent(data, fwd, start)[b] == p[1] as usize;
        assert(vs.contains(adjacent(data, fwd, start)[b]));
        assert(vs.contains(p[1] as usize));
    } else {
        let p0 = p.drop_last();
        assert forall|t: int| 0 <= t < p0.len() - 1 implies step(data, fwd, #[trigger] p0[t], p0[t + 1]) by {
            assert(step(data, fwd, p[t], p[t + 1]));
        }
        assert(is_chain(data, fwd, p0) && p0[0] == start);
        lemma_closed_complete(data, fwd, start, vs, p0);
        let prev = p[p.len() - 2];
        assert(vs.contains(prev as usize));
        let t = choose|t: int| 0 <= t < vs.len() && vs[t] == prev as usize;
        assert(step(data, fwd, p[p.len() - 2], p[p.len() - 1]));
        assert(0 <= prev < data.len());
        assert(vs[t] as int == prev);
        assert(adjacent(data, fwd, prev).contains(p[p.len() - 1] as usize));
        let b = choose|b: int|
            0 <= b < adjacent(data, fwd, prev).len() && adjacent(data, fwd, prev)[b] == p[p.len()
                - 1] as usize;
        assert(vs.contains(adjacent(data, fwd, vs[t] as int)[b]));
        assert(vs.contains(p[p.len() - 1] as usize));
    }
}

/// Whether the index list holds this index.
fn holds_index(v: &Vec<usize>, x: usize) -> (r: bool)
    ensures
        r == v@.contains(x),
{
    let mut i: usize = 0;
    while i < v.len()
        invariant
            i <= v@.len(),
            forall|k: int| 0 <= k < i ==> v@[k] != x,
        decreases v@.len() - i,
    {
        if v[i] == x {
            return true;
        }
        i = i + 1;
    }
    false
}

/// Every record reachable from `start` in one or more steps along the
/// chosen direction, each exactly once.
#[verifier::rlimit(100)]
#[verifier::spinoff_prover]
fn collect_reachable(data: &Vec<FileInfo>, start: usize, fwd: bool) -> (ret: Vec<usize>)
    requires
        start < data@.len(),
        fwd ==> fwd_edges_bounded(data@),
        !fwd ==> back_edges_bounded(data@),
    ensures
        ret@.no_duplicates(),
        forall|v: usize| #[trigger] ret@.contains(v) <==> reaches(data@, fwd, start as int, v as int),
        forall|t: int| 0 <= t < ret@.len() ==> (#[trigger] ret@[t]) < data@.len(),
{
    let ghost g = data@;
    let n = data.len();
    proof {
        assert forall|v: int, b: int|
            0 <= v < n && 0 <= b < adjacent(g, fwd, v).len() implies (#[trigger] adjacent(
            g,
            fwd,
            v,
        )[b]) < n by {
            if fwd {
                assert(g[v].includes@.contains(g[v].includes@[b]));
            } else {
                assert(g[v].included_by@.contains(g[v].included_by@[b]));
            }
        }
    }
    let mut visited: Vec<usize> = Vec::new();
    let mut stack: Vec<usize> = Vec::new();
    let mut b: usize = 0;
    let seed_len = if fwd {
        data[start].includes.len()
    } else {
        data[start].included_by.len()
    };
    while b < seed_len
        invariant
            g == data@,
            n == g.len(),
            start < n,
            seed_len == adjacent(g, fwd, start as int).len(),
            b <= seed_len,
            stack@ == adjacent(g, fwd, start as int).take(b as int),
        decreases seed_len - b,
    {
        let w = if fwd {
            data[start].includes[b]
        } else {
            data[start].included_by[b]
        };
        stack.push(w);
        proof {
            assert(stack@ =~= adjacent(g, fwd, start as int).take((b + 1) as int));
        }
        b = b + 1;
    }
    proof {
        assert(stack@ =~= adjacent(g, fwd, start as int));
        assert forall|t: int| 0 <= t < stack@.len() implies reaches(
            g,
            fwd,
            start as int,
            (#[trigger] stack@[t]) as int,
        ) && stack@[t] < n by {
            assert(adjacent(g, fwd, start as int).contains(stack@[t]));
            lemma_step_reaches(g, fwd, start as int, stack@[t] as int);
        }
    }
    while stack.len() > 0
        invariant
            g == data@,
            n == g.len(),
            start < n,
            forall|v: int, b2: int|
                0 <= v < n && 0 <= b2 < adjacent(g, fwd, v).len() ==> (#[trigger] adjacent(
                    g,
                    fwd,
                    v,
                )[b2]) < n,
            visited@.no_duplicates(),
            visited@.len() <= n,
            forall|t: int| 0 <= t < visited@.len() ==> (#[trigger] visited@[t]) < n,
            forall|t: int| 0 <= t < stack@.len() ==> (#[trigger] stack@[t]) < n,
            forall|t: int|
                0 <= t < visited@.len() ==> reaches(
                    g,
                    fwd,
                    start as int,
                    (#[trigger] visited@[t]) as int,
                ),
            forall|t: int|
                0 <= t < stack@.len() ==> reaches(
                    g,
                    fwd,
                    start as int,
                    (#[trigger] stack@[t]) as int,
                ),
            forall|b2: int|
                0 <= b2 < adjacent(g, fwd, start as int).len() ==> visited@.contains(
                    #[trigger] adjacent(g, fwd, start as int)[b2],
                ) || stack@.contains(adjacent(g, fwd, start as int)[b2]),
            forall|t: int, b2: int|
                0 <= t < visited@.len() && 0 <= b2 < adjacent(g, fwd, visited@[t] as int).len()
                    ==> visited@.contains(#[trigger] adjacent(g, fwd, visited@[t] as int)[b2])
                    || stack@.contains(adjacent(g, fwd, visited@[t] as int)[b2]),
        decreases n - visited@.len(), stack@.len(),
    {
        let ghost stack0 = stack@;
        let v = match stack.pop() {
            Some(v) => v,
            None => {
                proof {
                    assert(false);
                }
                0
            },
        };
        proof {
            assert(stack0[stack0.len() - 1] == v);
            assert(stack0.contains(v));
            assert forall|y: usize| stack0.contains(y) && y != v implies stack@.contains(y) by {
                let w = choose|w: int| 0 <= w < stack0.len() && stack0[w] == y;
                assert(w < stack0.len() - 1);
                assert(stack@[w] == y);
            }
        }
        if !holds_index(&visited, v) {
            let ghost vis0 = visited@;
            visited.push(v);
            proof {
                lemma_push_contains(vis0, v);
                lemma_distinct_bounded_len(visited@, n as int);
            }
            let adj_len = if fwd {
                data[v].includes.len()
            } else {
                data[v].included_by.len()
            };
            let mut b2: usize = 0;
            while b2 < adj_len
                invariant
                    g == data@,
                    n == g.len(),
                    start < n,
                    v < n,
                    forall|vv: int, bb: int|
                        0 <= vv < n && 0 <= bb < adjacent(g, fwd, vv).len() ==> (
                        #[trigger] adjacent(g, fwd, vv)[bb]) < n,
                    adj_len == adjacent(g, fwd, v as int).len(),
                    b2 <= adj_len,
                    reaches(g, fwd, start as int, v as int),
                    forall|t: int| 0 <= t < stack@.len() ==> (#[trigger] stack@[t]) < n,
                    forall|t: int|
                        0 <= t < stack@.len() ==> reaches(
                            g,
                            fwd,
                            start as int,
                            (#[trigger] stack@[t]) as int,
                        ),
                    forall|y: usize|
                        #[trigger] stack@.contains(y) <==> (stack0.drop_last().contains(y) || (
                        exists|bb: int|
                            0 <= bb < b2 && adjacent(g, fwd, v as int)[bb] == y)),
                decreases adj_len - b2,
            {
                let ghost st0 = stack@;
                let w = if fwd {
                    data[v].includes[b2]
                } else {
                    data[v].included_by[b2]
                };
                stack.push(w);
                proof {
                    lemma_push_contains(st0, w);
                    assert(adjacent(g, fwd, v as int).contains(w));
                    assert(step(g, fwd, v as int, w as int));
                    lemma_reaches_step(g, fwd, start as int, v as int, w as int);
                    assert forall|y: usize|
                        #[trigger] stack@.contains(y) implies (stack0.drop_last().contains(y) || (
                    exists|bb: int|
                        0 <= bb < b2 + 1 && adjacent(g, fwd, v as int)[bb] == y)) by {
                        if st0.contains(y) {
                            if !stack0.drop_last().contains(y) {
                                let bb = choose|bb: int|
                                    0 <= bb < b2 && adjacent(g, fwd, v as int)[bb] == y;
                                assert(0 <= bb < b2 + 1 && adjacent(g, fwd, v as int)[bb] == y);
                            }
                        } else {
                            assert(y == w);
                            assert(adjacent(g, fwd, v as int)[b2 as int] == y);
                        }
                    }
                }
                b2 = b2 + 1;
            }
            proof {
                assert forall|bb: int|
                    0 <= bb < adjacent(g, fwd, start as int).len() implies visited@.contains(
                    #[trigger] adjacent(g, fwd, start as int)[bb],
                ) || stack@.contains(adjacent(g, fwd, start as int)[bb]) by {
                    let y = adjacent(g, fwd, start as int)[bb];
                    if !visited@.contains(y) {
                        assert(!vis0.contains(y) && y != v);
                        assert(stack0.contains(y));
                        assert(stack0.drop_last().contains(y) || y == stack0[stack0.len() - 1]);
                    }
                }
                assert forall|t: int, bb: int|
                    0 <= t < visited@.len() && 0 <= bb < adjacent(g, fwd, visited@[t] as int).len()
                    implies visited@.contains(
                    #[trigger] adjacent(g, fwd, visited@[t] as int)[bb],
                ) || stack@.contains(adjacent(g, fwd, visited@[t] as int)[bb]) by {
                    let u = visited@[t];
                    let y = adjacent(g, fwd, u as int)[bb];
                    if u == v {
                        assert(stack@.contains(y) || visited@.contains(y)) by {
                            assert(exists|b3: int|
                                0 <= b3 < adjacent(g, fwd, v as int).len() && adjacent(
                                    g,
                                    fwd,
                                    v as int,
                                )[b3] == y);
                        }
                    } else {
                        assert(vis0.contains(u));
                        let t0 = choose|t0: int| 0 <= t0 < vis0.len() && vis0[t0] == u;
                        if !visited@.contains(y) {
                            assert(!vis0.contains(y) && y != v);
                            assert(vis0.contains(vis0[t0]));
                            assert(stack0.contains(adjacent(g, fwd, vis0[t0] as int)[bb]));
                            assert(stack0.drop_last().contains(y) || y == stack0[stack0.len()
                                - 1]);
                        }
                    }
                }
            }
        } else {
            proof {
                assert forall|bb: int|
                    0 <= bb < adjacent(g, fwd, start as int).len() implies visited@.contains(
                    #[trigger] adjacent(g, fwd, start as int)[bb],
                ) || stack@.contains(adjacent(g, fwd, start as int)[bb]) by {
                    let y = adjacent(g, fwd, start as int)[bb];
                    if !visited@.contains(y) {
                        assert(y != v);
                        assert(stack0.contains(y));
                    }
                }
                assert forall|t: int, bb: int|
                    0 <= t < visited@.len() && 0 <= bb < adjacent(g, fwd, visited@[t] as int).len()
                    implies visited@.contains(
                    #[trigger] adjacent(g, fwd, visited@[t] as int)[bb],
                ) || stack@.contains(adjacent(g, fwd, visited@[t] as int)[bb]) by {
                    let y = adjacent(g, fwd, visited@[t] as int)[bb];
                    if !visited@.contains(y) {
                        assert(y != v);
                        assert(stack0.contains(y));
                    }
                }
            }
        }
    }
    proof {
        assert forall|v: usize| #[trigger] visited@.contains(v) implies reaches(
            g,
            fwd,
            start as int,
            v as int,
        ) by {
            let t = choose|t: int| 0 <= t < visited@.len() && visited@[t] == v;
        }
        assert forall|v: usize| reaches(g, fwd, start as int, v as int) implies (
        #[trigger] visited@.contains(v)) by {
            let p = choose|p: Seq<int>|
                is_chain(g, fwd, p) && p[0] == start as int && p[p.len() - 1] == v as int;
            lemma_closed_complete(g, fwd, start as int, visited@, p);
        }
    }
    visited
}

/// The forward closure of record `idx`, stored into `ret`: every record
/// that `idx` pulls in directly or indirectly, once each.
pub fn recurse_collect_includes(data: &Vec<FileInfo>, idx: usize, ret: &mut Vec<usize>)
    requires
        idx < data@.len(),
        fwd_edges_bounded(data@),
        old(ret)@.len() == 0,
    ensures
        final(ret)@.no_duplicates(),
        forall|v: usize|
            #[trigger] final(ret)@.contains(v) <==> reaches(data@, true, idx as int, v as int),
        forall|t: int| 0 <= t < final(ret)@.len() ==> (#[trigger] final(ret)@[t]) < data@.len(),
{
    let r = collect_reachable(data, idx, true);
    *ret = r;
}

/// The backward closure of record `idx`, stored into `ret`: every record
/// that pulls `idx` in directly or indirectly, once each.
pub fn recurse_collect_included_by(data: &Vec<FileInfo>, idx: usize, ret: &mut Vec<usize>)
    requires
        idx < data@.len(),
        back_edges_bounded(data@),
        old(ret)@.len() == 0,
    ensures
        final(ret)@.no_duplicates(),
        forall|v: usize|
            #[trigger] final(ret)@.contains(v) <==> reaches(data@, false, idx as int, v as int),
        forall|t: int| 0 <= t < final(ret)@.len() ==> (#[trigger] final(ret)@[t]) < data@.len(),
{
    let r = collect_reachable(data, idx, false);
    *ret = r;
}

/// Fill the three closure lists of every record: the forward closure, the
/// backward closure, and the members of the backward closure that are
/// translation-unit roots.
pub fn process_step_link_include_indirect(data: &mut Vec<FileInfo>)
    requires
        fwd_edges_bounded(old(data)@),
        back_edges_bounded(old(data)@),
    ensures
        final(data)@.len() == old(data)@.len(),
        forall|i: int|
            0 <= i < final(data)@.len() ==> closure_record(
                old(data)@[i],
                #[trigger] final(data)@[i],
            ),
        forall|i: int|
            0 <= i < final(data)@.len() ==> (#[trigger] final(data)@[i].includes_indirect@).no_duplicates()
                && final(data)@[i].included_by_indirect@.no_duplicates()
                && final(data)@[i].included_by_indirect_sources@.no_duplicates(),
        forall|i: int, v: usize|
            0 <= i < final(data)@.len() ==> ((#[trigger] final(data)@[i].includes_indirect@.contains(
                v,
            )) <==> reaches(final(data)@, true, i, v as int)),
        forall|i: int, v: usize|
            0 <= i < final(data)@.len() ==> ((#[trigger] final(data)@[i].included_by_indirect@.contains(
                v,
            )) <==> reaches(final(data)@, false, i, v as int)),
        forall|i: int, v: usize|
            0 <= i < final(data)@.len() ==> ((
            #[trigger] final(data)@[i].included_by_indirect_sources@.contains(v)) <==> (reaches(
                final(data)@,
                false,
                i,
                v as int,
            ) && v < final(data)@.len() && final(data)@[v as int].source_file)),
{
    let ghost g0 = old(data)@;
    let n = data.len();
    let mut idx: usize = 0;
    while idx < n
        invariant
            n == data@.len(),
            n == g0.len(),
            g0 == old(data)@,
            idx <= n,
            fwd_edges_bounded(g0),
            back_edges_bounded(g0),
            forall|i: int| 0 <= i < n ==> closure_record(g0[i], #[trigger] data@[i]),
            forall|i: int| idx <= i < n ==> data@[i] == g0[i],
            forall|i: int|
                0 <= i < idx ==> (#[trigger] data@[i].includes_indirect@).no_duplicates()
                    && data@[i].included_by_indirect@.no_duplicates()
                    && data@[i].included_by_indirect_sources@.no_duplicates(),
            forall|i: int, v: usize|
                0 <= i < idx ==> ((#[trigger] data@[i].includes_indirect@.contains(v)) <==> reaches(
                    g0,
                    true,
                    i,
                    v as int,
                )),
            forall|i: int, v: usize|
                0 <= i < idx ==> ((#[trigger] data@[i].included_by_indirect@.contains(v))
                    <==> reaches(g0, false, i, v as int)),
            forall|i: int, v: usize|
                0 <= i < idx ==> ((#[trigger] data@[i].included_by_indirect_sources@.contains(v))
                    <==> (reaches(g0, false, i, v as int) && v < n && g0[v as int].source_file)),
        decreases n - idx,
    {
        proof {
            assert forall|i: int|
                0 <= i < n implies (#[trigger] data@[i]).includes@ == g0[i].includes@
                && data@[i].included_by@ == g0[i].included_by@ by {}
            assert forall|i: int, v: usize|
                0 <= i < n && (#[trigger] data@[i].includes@.contains(v)) implies v < n by {
                assert(g0[i].includes@.contains(v));
            }
            assert forall|i: int, v: usize|
                0 <= i < n && (#[trigger] data@[i].included_by@.contains(v)) implies v < n by {
                assert(g0[i].included_by@.contains(v));
            }
            lemma_reaches_stable(g0, data@);
        }
        let mut fwdv: Vec<usize> = Vec::new();
        recurse_collect_includes(data, idx, &mut fwdv);
        let mut backv: Vec<usize> = Vec::new();
        recurse_collect_included_by(data, idx, &mut backv);
        let ghost gcur = data@;
        let mut srcs: Vec<usize> = Vec::new();
        let mut b: usize = 0;
        while b < backv.len()
            invariant
                n == data@.len(),
                data@ == gcur,
                b <= backv@.len(),
                backv@.no_duplicates(),
                forall|t: int| 0 <= t < backv@.len() ==> (#[trigger] backv@[t]) < n,
                srcs@.no_duplicates(),
                forall|y: usize|
                    #[trigger] srcs@.contains(y) <==> (exists|w: int|
                        0 <= w < b && backv@[w] == y && data@[y as int].source_file),
            decreases backv@.len() - b,
        {
            let w = backv[b];
            if data[w].source_file {
                let ghost s0 = srcs@;
                proof {
                    if s0.contains(w) {
                        let ww = choose|ww: int|
                            0 <= ww < b && backv@[ww] == w && data@[w as int].source_file;
                        assert(backv@[ww] == backv@[b as int]);
                        assert(false);
                    }
                    lemma_push_contains(s0, w);
                }
                srcs.push(w);
                proof {
                    assert forall|y: usize|
                        #[trigger] srcs@.contains(y) implies (exists|ww: int|
                        0 <= ww < b + 1 && backv@[ww] == y && data@[y as int].source_file) by {
                        if s0.contains(y) {
                            let ww = choose|ww: int|
                                0 <= ww < b && backv@[ww] == y && data@[y as int].source_file;
                            assert(0 <= ww < b + 1 && backv@[ww] == y);
                        } else {
                            assert(y == w);
                            assert(backv@[b as int] == y);
                        }
                    }
                    assert forall|y: usize|
                        (exists|ww: int|
                            0 <= ww < b + 1 && backv@[ww] == y && data@[y as int].source_file)
                        implies #[trigger] srcs@.contains(y) by {
                        let ww = choose|ww: int|
                            0 <= ww < b + 1 && backv@[ww] == y && data@[y as int].source_file;
                        if ww < b {
                            assert(s0.contains(y));
                        } else {
                            assert(y == w);
                        }
                    }
                }
            } else {
                proof {
                    assert forall|y: usize|
                        #[trigger] srcs@.contains(y) implies (exists|ww: int|
                        0 <= ww < b + 1 && backv@[ww] == y && data@[y as int].source_file) by {
                        let ww = choose|ww: int|
                            0 <= ww < b && backv@[ww] == y && data@[y as int].source_file;
                        assert(0 <= ww < b + 1 && backv@[ww] == y);
                    }
                    assert forall|y: usize|
                        (exists|ww: int|
                            0 <= ww < b + 1 && backv@[ww] == y && data@[y as int].source_file)
                        implies #[trigger] srcs@.contains(y) by {
                        let ww = choose|ww: int|
                            0 <= ww < b + 1 && backv@[ww] == y && data@[y as int].source_file;
                        if ww == b {
                            assert(y == w && data@[w as int].source_file);
                            assert(false);
                        }
                        assert(0 <= ww < b && backv@[ww] == y);
                    }
                }
            }
            b = b + 1;
        }
        let ghost gfwd = fwdv@;
        let ghost gback = backv@;
        let ghost gsrcs = srcs@;
        let ghost before = data@;
        data[idx].includes_indirect = fwdv;
        data[idx].included_by_indirect = backv;
        data[idx].included_by_indirect_sources = srcs;
        proof {
            assert forall|i: int| 0 <= i < n && i != idx implies data@[i] == before[i] by {}
            assert(gfwd.no_duplicates() && gback.no_duplicates() && gsrcs.no_duplicates());
            assert forall|i: int|
                0 <= i < idx + 1 implies (#[trigger] data@[i].includes_indirect@).no_duplicates()
                && data@[i].included_by_indirect@.no_duplicates()
                && data@[i].included_by_indirect_sources@.no_duplicates() by {
                if i < idx {
                    assert(data@[i] == before[i]);
                    assert(before[i].includes_indirect@.no_duplicates());
                    assert(before[i].included_by_indirect@.no_duplicates());
                    assert(before[i].included_by_indirect_sources@.no_duplicates());
                }
            }
            assert(data@[idx as int].includes_indirect@ == gfwd);
            assert(data@[idx as int].included_by_indirect@ == gback);
            assert(data@[idx as int].included_by_indirect_sources@ == gsrcs);
            assert(closure_record(g0[idx as int], data@[idx as int]));
            assert forall|v: usize|
                #[trigger] gsrcs.contains(v) <==> (reaches(g0, false, idx as int, v as int) && v
                < n && g0[v as int].source_file) by {
                if gsrcs.contains(v) {
                    let ww = choose|ww: int|
                        0 <= ww < gback.len() && gback[ww] == v && before[v as int].source_file;
                    assert(gback.contains(v));
                }
                if reaches(g0, false, idx as int, v as int) && v < n
                    && g0[v as int].source_file {
                    assert(reaches(before, false, idx as int, v as int));
                    assert(gback.contains(v));
                    let ww = choose|ww: int| 0 <= ww < gback.len() && gback[ww] == v;
                }
            }
        }
        idx = idx + 1;
    }
    proof {
        assert forall|i: int|
            0 <= i < n implies (#[trigger] data@[i]).includes@ == g0[i].includes@
            && data@[i].included_by@ == g0[i].included_by@ by {}
        lemma_reaches_stable(g0, data@);
    }
}

} // verus!
