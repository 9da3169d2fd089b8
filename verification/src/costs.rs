//! Cost aggregation: each record's code lines together with everything it
//! pulls in, counted once, and the contribution of a header to all the
//! translation units that consume it.

use vstd::prelude::*;

use crate::record::FileInfo;

verus! {

/// The code lines of record `v`, or nothing for an out-of-range index.
pub open spec fn rec_lines(data: Seq<FileInfo>, v: usize) -> nat {
    if v < data.len() {
        data[v as int].lines as nat
    } else {
        0
    }
}

/// The summed code lines of the listed records.
pub open spec fn sum_lines(data: Seq<FileInfo>, idxs: Seq<usize>) -> nat
    decreases idxs.len(),
{
    if idxs.len() == 0 {
        0
    } else {
        rec_lines(data, idxs[0]) + sum_lines(data, idxs.drop_first())
    }
}

/// The summed code lines of the first `k` records.
pub open spec fn range_sum(data: Seq<FileInfo>, k: int) -> nat
    decreases k,
{
    if k <= 0 {
        0
    } else {
        range_sum(data, k - 1) + rec_lines(data, (k - 1) as usize)
    }
}

/// The summed code lines of every record.
pub open spec fn total_lines(data: Seq<FileInfo>) -> nat {
    range_sum(data, data.len() as int)
}

/// The machine bound under which every aggregated cost fits in a `usize`:
/// no weighted sum exceeds the total code lines times the record count.
pub open spec fn cost_budget_ok(data: Seq<FileInfo>) -> bool {
    total_lines(data) * data.len() <= usize::MAX
}

/// Splitting a sum at one position.
proof fn lemma_sum_remove(data: Seq<FileInfo>, idxs: Seq<usize>, w: int)
    requires
        0 <= w < idxs.len(),
    ensures
        sum_lines(data, idxs) == sum_lines(data, idxs.remove(w)) + rec_lines(data, idxs[w]),
    decreases idxs.len(),
{
    if w == 0 {
        assert(idxs.remove(0) =~= idxs.drop_first());
    } else {
        assert(idxs.remove(w).drop_first() =~= idxs.drop_first().remove(w - 1));
        lemma_sum_remove(data, idxs.drop_first(), w - 1);
        assert(idxs.remove(w)[0] == idxs[0]);
    }
}

/// Removing a position keeps a list duplicate-free, and removes the sole
/// occurrence of its value.
proof fn lemma_remove_no_dup(s: Seq<usize>, w: int)
    requires
        0 <= w < s.len(),
        s.no_duplicates(),
    ensures
        s.remove(w).no_duplicates(),
        !s.remove(w).contains(s[w]),
{
    let r = s.remove(w);
    assert forall|a: int, b: int|
        0 <= a < r.len() && 0 <= b < r.len() && a != b implies r[a] != r[b] by {
        let pa = if a < w {
            a
        } else {
            a + 1
        };
        let pb = if b < w {
            b
        } else {
            b + 1
        };
        assert(r[a] == s[pa] && r[b] == s[pb]);
    }
    if r.contains(s[w]) {
        let a = choose|a: int| 0 <= a < r.len() && r[a] == s[w];
        let pa = if a < w {
            a
        } else {
            a + 1
        };
        assert(r[a] == s[pa]);
        assert(pa != w);
        assert(false);
    }
}

/// A duplicate-free selection of records never sums to more than all
/// records together.
proof fn lemma_sum_le_range(data: Seq<FileInfo>, idxs: Seq<usize>, n: int)
    requires
        n >= 0,
        idxs.no_duplicates(),
        forall|t: int| 0 <= t < idxs.len() ==> (#[trigger] idxs[t]) < n,
    ensures
        sum_lines(data, idxs) <= range_sum(data, n),
    decreases n,
{
    if n == 0 {
        if idxs.len() > 0 {
            assert(idxs[0] < 0);
        }
    } else {
        if idxs.contains((n - 1) as usize) {
            let w = choose|w: int| 0 <= w < idxs.len() && idxs[w] == (n - 1) as usize;
            let rest = idxs.remove(w);
            lemma_sum_remove(data, idxs, w);
            lemma_remove_no_dup(idxs, w);
            assert forall|t: int| 0 <= t < rest.len() implies (#[trigger] rest[t]) < n - 1 by {
                assert(rest.contains(rest[t]));
                assert(rest[t] != (n - 1) as usize);
                let pt = if t < w {
                    t
                } else {
                    t + 1
                };
                assert(rest[t] == idxs[pt]);
            }
            lemma_sum_le_range(data, rest, n - 1);
        } else {
            assert forall|t: int| 0 <= t < idxs.len() implies (#[trigger] idxs[t]) < n - 1 by {
                assert(idxs.contains(idxs[t]));
                assert(idxs[t] != (n - 1) as usize);
            }
            lemma_sum_le_range(data, idxs, n - 1);
        }
    }
}

/// Sums ignore every field but the code line counts.
pub(crate) proof fn lemma_sum_stable(pre: Seq<FileInfo>, post: Seq<FileInfo>, idxs: Seq<usize>)
    requires
        pre.len() == post.len(),
        forall|i: int| 0 <= i < pre.len() ==> (#[trigger] post[i]).lines == pre[i].lines,
    ensures
        sum_lines(post, idxs) == sum_lines(pre, idxs),
    decreases idxs.len(),
{
    if idxs.len() > 0 {
        lemma_sum_stable(pre, post, idxs.drop_first());
    }
}

/// The aggregator touched only the three cost fields; every other field is
/// as in `o`.
pub open spec fn cost_record(o: FileInfo, fi: FileInfo) -> bool {
    &&& fi.name@ == o.name@
    &&& fi.data@ == o.data@
    &&& fi.stab_file == o.stab_file
    &&& fi.source_file == o.source_file
    &&& fi.text_lines == o.text_lines
    &&& fi.lines == o.lines
    &&& fi.parsed_includes@ == o.parsed_includes@
    &&& fi.includes@ == o.includes@
    &&& fi.included_by@ == o.included_by@
    &&& fi.includes_indirect@ == o.includes_indirect@
    &&& fi.included_by_indirect@ == o.included_by_indirect@
    &&& fi.included_by_indirect_sources@ == o.included_by_indirect_sources@
}

/// Compute each record's combined line count and its contribution metrics.
/// A header is weighted by the number of distinct translation-unit roots
/// that transitively pull it in; a root itself has weight one.
pub fn process_step_calc_costs(data: &mut Vec<FileInfo>)
    requires
        cost_budget_ok(old(data)@),
        forall|i: int|
            0 <= i < old(data)@.len() ==> (#[trigger] old(data)@[i].includes_indirect@).no_duplicates()
                && old(data)@[i].included_by_indirect_sources@.no_duplicates(),
        forall|i: int, v: usize|
            0 <= i < old(data)@.len() && (#[trigger] old(data)@[i].includes_indirect@.contains(v))
                ==> v < old(data)@.len(),
        forall|i: int, v: usize|
            0 <= i < old(data)@.len() && (
            #[trigger] old(data)@[i].included_by_indirect_sources@.contains(v)) ==> v < old(data)@.len(),
        forall|i: int|
            0 <= i < old(data)@.len() ==> !old(data)@[i].includes_indirect@.contains(i as usize),
    ensures
        final(data)@.len() == old(data)@.len(),
        forall|i: int|
            0 <= i < final(data)@.len() ==> cost_record(old(data)@[i], #[trigger] final(data)@[i]),
        forall|i: int|
            0 <= i < final(data)@.len() ==> (#[trigger] final(data)@[i]).lines_with_all_includes
                == old(data)@[i].lines + sum_lines(old(data)@, old(data)@[i].includes_indirect@),
        forall|i: int|
            0 <= i < final(data)@.len() && old(data)@[i].source_file ==> (#[trigger] final(data)@[i]).lines_contributes_self
                == old(data)@[i].lines && final(data)@[i].lines_contributes_total == final(data)@[i].lines_with_all_includes,
        forall|i: int|
            0 <= i < final(data)@.len() && !old(data)@[i].source_file ==> (#[trigger] final(data)@[i]).lines_contributes_self
                == old(data)@[i].lines * old(data)@[i].included_by_indirect_sources@.len()
                && final(data)@[i].lines_contributes_total == final(data)@[i].lines_with_all_includes
                * old(data)@[i].included_by_indirect_sources@.len(),
{
    let ghost g0 = old(data)@;
    let n = data.len();
    let mut idx: usize = 0;
    while idx < n
        invariant
            n == data@.len(),
            n == g0.len(),
            g0 == old(data)@,
            idx <= n,
            cost_budget_ok(g0),
            forall|i: int|
                0 <= i < n ==> (#[trigger] g0[i].includes_indirect@).no_duplicates()
                    && g0[i].included_by_indirect_sources@.no_duplicates(),
            forall|i: int, v: usize|
                0 <= i < n && (#[trigger] g0[i].includes_indirect@.contains(v)) ==> v < n,
            forall|i: int, v: usize|
                0 <= i < n && (#[trigger] g0[i].included_by_indirect_sources@.contains(v)) ==> v
                    < n,
            forall|i: int| 0 <= i < n ==> !g0[i].includes_indirect@.contains(i as usize),
            forall|i: int| 0 <= i < n ==> cost_record(g0[i], #[trigger] data@[i]),
            forall|i: int| idx <= i < n ==> data@[i] == g0[i],
            forall|i: int|
                0 <= i < idx ==> (#[trigger] data@[i]).lines_with_all_includes == g0[i].lines
                    + sum_lines(g0, g0[i].includes_indirect@),
            forall|i: int|
                0 <= i < idx && g0[i].source_file ==> (#[trigger] data@[i]).lines_contributes_self
                    == g0[i].lines && data@[i].lines_contributes_total
                    == data@[i].lines_with_all_includes,
            forall|i: int|
                0 <= i < idx && !g0[i].source_file ==> (#[trigger] data@[i]).lines_contributes_self
                    == g0[i].lines * g0[i].included_by_indirect_sources@.len()
                    && data@[i].lines_contributes_total == data@[i].lines_with_all_includes
                    * g0[i].included_by_indirect_sources@.len(),
        decreases n - idx,
    {
        let ghost list = g0[idx as int].includes_indirect@;
        proof {
            // the record plus its closure stays within the total
            crate::graph::lemma_push_contains(Seq::<usize>::empty().push(idx), idx);
            let withself = seq![idx].add(list);
            assert(withself.drop_first() =~= list);
            assert(withself[0] == idx);
            assert forall|a: int, b: int|
                0 <= a < withself.len() && 0 <= b < withself.len() && a != b implies withself[a]
                != withself[b] by {
                if a == 0 {
                    assert(list.contains(withself[b]));
                } else if b == 0 {
                    assert(list.contains(withself[a]));
                } else {
                    assert(withself[a] == list[a - 1] && withself[b] == list[b - 1]);
                }
            }
            assert forall|t: int| 0 <= t < withself.len() implies (#[trigger] withself[t])
                < n by {
                if t == 0 {
                } else {
                    assert(list.contains(list[t - 1]));
                }
            }
            lemma_sum_le_range(g0, withself, n as int);
            assert(rec_lines(g0, idx) + sum_lines(g0, list) <= total_lines(g0));
            assert(total_lines(g0) <= usize::MAX) by (nonlinear_arith)
                requires
                    total_lines(g0) * n <= usize::MAX,
                    n >= 1,
            {}
        }
        proof {
            assert(list.skip(0) =~= list);
        }
        let m = data[idx].includes_indirect.len();
        let mut acc: usize = 0;
        let mut b: usize = 0;
        while b < m
            invariant
                n == data@.len(),
                n == g0.len(),
                idx < n,
                forall|i: int| 0 <= i < n ==> cost_record(g0[i], #[trigger] data@[i]),
                list == g0[idx as int].includes_indirect@,
                m == list.len(),
                b <= m,
                forall|t: int| 0 <= t < list.len() ==> (#[trigger] list[t]) < n,
                acc + sum_lines(g0, list.skip(b as int)) == sum_lines(g0, list),
                rec_lines(g0, idx) + sum_lines(g0, list) <= usize::MAX,
            decreases m - b,
        {
            let v = data[idx].includes_indirect[b];
            proof {
                assert(list.contains(list[b as int]));
                assert(list.skip(b as int)[0] == list[b as int]);
                assert(list.skip(b as int).drop_first() =~= list.skip(b as int + 1));
                assert(sum_lines(g0, list.skip(b as int)) == rec_lines(g0, v) + sum_lines(
                    g0,
                    list.skip(b as int + 1),
                ));
            }
            acc = acc + data[v].lines;
            b = b + 1;
        }
        proof {
            assert(list.skip(m as int) =~= Seq::<usize>::empty());
            assert(acc == sum_lines(g0, list));
        }
        let combined = data[idx].lines + acc;
        let w = data[idx].included_by_indirect_sources.len();
        proof {
            let srcs = g0[idx as int].included_by_indirect_sources@;
            assert forall|t: int| 0 <= t < srcs.len() implies (#[trigger] srcs[t]) < n by {
                assert(srcs.contains(srcs[t]));
            }
            crate::graph::lemma_distinct_bounded_len(srcs, n as int);
            assert(combined <= total_lines(g0));
            assert(rec_lines(g0, idx) <= total_lines(g0));
            assert(combined * w <= usize::MAX && data@[idx as int].lines * w <= usize::MAX)
                by (nonlinear_arith)
                requires
                    combined <= total_lines(g0),
                    data@[idx as int].lines <= combined,
                    w <= n,
                    total_lines(g0) * n <= usize::MAX,
            {}
        }
        let ghost before = data@;
        if data[idx].source_file {
            data[idx].lines_with_all_includes = combined;
            data[idx].lines_contributes_self = data[idx].lines;
            data[idx].lines_contributes_total = combined;
        } else {
            data[idx].lines_with_all_includes = combined;
            data[idx].lines_contributes_self = data[idx].lines * w;
            data[idx].lines_contributes_total = combined * w;
        }
        proof {
            assert forall|i: int| 0 <= i < n && i != idx implies data@[i] == before[i] by {}
            assert(cost_record(g0[idx as int], data@[idx as int]));
        }
        idx = idx + 1;
    }
}

} // verus!
