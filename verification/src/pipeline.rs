//! The full analysis pipeline, strictly sequential: scan every record,
//! synthesize stubs, resolve links, verify the graph is acyclic, and — only
//! then — compute closures and costs. A detected cycle halts the pipeline
//! with a witness pair and leaves every closure and cost field unset.

use vstd::prelude::*;

use crate::closure::{closure_record, lemma_reaches_stable, process_step_link_include_indirect};
use crate::costs::{
    cost_budget_ok, cost_record, lemma_sum_stable, process_step_calc_costs,
    range_sum, rec_lines, sum_lines, total_lines,
};
use crate::cycle::process_step_check_circular;
use crate::graph::{
    acyclic, back_edges_bounded, edges_symmetric, fwd_edges_bounded, is_chain, lemma_cycles_stable,
    lemma_self_reach_cycle, reaches, step,
};
use crate::lexer::{code_lines_from, include_views, lemma_scan_bounds, lines_from, parsed_from};
use crate::record::{closure_clear, names_unique, record_clear, FileInfo};
use crate::registry::{
    direct_edge, has_name, lemma_edges_stable, linked_record, mentioned_upto, name_views,
    parsed_record, process_step_generate_stubs, process_step_link_include, process_step_parse,
    total_directives,
};

verus! {

/// The record's scan results stand; identity and contents are those of `o`.
pub open spec fn scanned_record(o: FileInfo, fi: FileInfo) -> bool {
    &&& fi.name@ == o.name@
    &&& fi.data@ == o.data@
    &&& fi.stab_file == o.stab_file
    &&& fi.source_file == o.source_file
    &&& fi.text_lines == lines_from(o.data@, 0)
    &&& fi.lines == code_lines_from(o.data@, 0)
    &&& include_views(fi.parsed_includes@) == parsed_from(o.data@, 0)
}

/// A synthesized stub: it matches no loaded file, has no contents, no code
/// and no outgoing directives, and is never a translation-unit root.
pub open spec fn stub_record(g0: Seq<FileInfo>, fi: FileInfo) -> bool {
    &&& fi.stab_file
    &&& !fi.source_file
    &&& fi.data@.len() == 0
    &&& fi.text_lines == 0
    &&& fi.lines == 0
    &&& fi.parsed_includes@.len() == 0
    &&& !has_name(g0, fi.name@)
}

/// Every directive resolved into mirrored, duplicate-free edge lists over
/// registry indices.
pub open spec fn edges_resolved(d: Seq<FileInfo>) -> bool {
    &&& forall|i: int|
        0 <= i < d.len() ==> (#[trigger] d[i].includes@).no_duplicates()
            && d[i].included_by@.no_duplicates()
    &&& forall|i: int, v: usize|
        0 <= i < d.len() && (#[trigger] d[i].includes@.contains(v)) ==> v < d.len()
    &&& forall|i: int, v: usize|
        0 <= i < d.len() && (#[trigger] d[i].included_by@.contains(v)) ==> v < d.len()
    &&& forall|u: usize, v: usize|
        u < d.len() && v < d.len() ==> ((#[trigger] d[u as int].includes@.contains(v))
            <==> direct_edge(d, u as int, v as int))
    &&& forall|u: usize, v: usize|
        u < d.len() && v < d.len() ==> ((#[trigger] d[u as int].included_by@.contains(v))
            <==> direct_edge(d, v as int, u as int))
}

/// The registry after scanning, stub synthesis and link resolution: the
/// loaded records scanned in place, a stub appended for every referenced
/// name with no loaded file, names still unique, and the edges exact.
pub open spec fn analyzed_base(g0: Seq<FileInfo>, d: Seq<FileInfo>) -> bool {
    &&& g0.len() <= d.len()
    &&& names_unique(d)
    &&& forall|i: int| 0 <= i < g0.len() ==> scanned_record(g0[i], #[trigger] d[i])
    &&& forall|i: int|
        g0.len() <= i < d.len() ==> stub_record(g0, #[trigger] d[i]) && mentioned_upto(
            d,
            g0.len() as int,
            d[i].name@,
        )
    &&& edges_resolved(d)
}

/// Closure lists filled and exact: membership is reachability, and the
/// source subset keeps exactly the translation-unit roots.
pub open spec fn closures_resolved(d: Seq<FileInfo>) -> bool {
    &&& forall|i: int|
        0 <= i < d.len() ==> (#[trigger] d[i].includes_indirect@).no_duplicates()
            && d[i].included_by_indirect@.no_duplicates()
            && d[i].included_by_indirect_sources@.no_duplicates()
    &&& forall|i: int, v: usize|
        0 <= i < d.len() ==> ((#[trigger] d[i].includes_indirect@.contains(v)) <==> reaches(
            d,
            true,
            i,
            v as int,
        ))
    &&& forall|i: int, v: usize|
        0 <= i < d.len() ==> ((#[trigger] d[i].included_by_indirect@.contains(v)) <==> reaches(
            d,
            false,
            i,
            v as int,
        ))
    &&& forall|i: int, v: usize|
        0 <= i < d.len() ==> ((#[trigger] d[i].included_by_indirect_sources@.contains(v)) <==> (
        reaches(d, false, i, v as int) && v < d.len() && d[v as int].source_file))
}

/// Cost metrics filled and exact: combined lines count each pulled-in
/// record once, and contributions weight a header by its consuming roots.
pub open spec fn costs_resolved(d: Seq<FileInfo>) -> bool {
    &&& forall|i: int|
        0 <= i < d.len() ==> (#[trigger] d[i]).lines_with_all_includes == d[i].lines + sum_lines(
            d,
            d[i].includes_indirect@,
        )
    &&& forall|i: int|
        0 <= i < d.len() && d[i].source_file ==> (#[trigger] d[i]).lines_contributes_self
            == d[i].lines && d[i].lines_contributes_total == d[i].lines_with_all_includes
    &&& forall|i: int|
        0 <= i < d.len() && !d[i].source_file ==> (#[trigger] d[i]).lines_contributes_self
            == d[i].lines * d[i].included_by_indirect_sources@.len()
            && d[i].lines_contributes_total == d[i].lines_with_all_includes
            * d[i].included_by_indirect_sources@.len()
}

/// Closure and cost fields of every record still at their initial values.
pub open spec fn closures_unset(d: Seq<FileInfo>) -> bool {
    forall|i: int| 0 <= i < d.len() ==> closure_clear(#[trigger] d[i])
}

/// The summed text sizes of the first `k` records.
pub open spec fn total_text(data: Seq<FileInfo>, k: int) -> nat
    decreases k,
{
    if k <= 0 {
        0
    } else {
        total_text(data, k - 1) + data[k - 1].data@.len()
    }
}

/// The machine bound the pipeline needs: code lines never exceed text
/// characters and the registry never grows past one record per directive,
/// so every aggregated cost stays below this product.
pub open spec fn pipeline_budget_ok(data: Seq<FileInfo>) -> bool {
    total_text(data, data.len() as int) * (data.len() + total_text(data, data.len() as int))
        <= usize::MAX
}

/// Each record offers at most one directive per code line.
proof fn lemma_directives_le_lines(d: Seq<FileInfo>, k: int)
    requires
        0 <= k <= d.len(),
        d.len() <= usize::MAX,
        forall|i: int| 0 <= i < k ==> (#[trigger] d[i]).parsed_includes@.len() <= d[i].lines,
    ensures
        total_directives(d, k) <= range_sum(d, k),
    decreases k,
{
    if k > 0 {
        lemma_directives_le_lines(d, k - 1);
        assert(rec_lines(d, (k - 1) as usize) == d[k - 1].lines);
    }
}

/// Records beyond `n0` carry no code, so prefix sums stop growing there.
proof fn lemma_range_sum_padded(g0: Seq<FileInfo>, d: Seq<FileInfo>, k: int, n0: int)
    requires
        0 <= k <= d.len(),
        0 <= n0 <= g0.len(),
        d.len() <= usize::MAX,
        forall|i: int| 0 <= i < n0 && i < d.len() ==> (#[trigger] d[i]).lines <= g0[i].data@.len(),
        forall|i: int| n0 <= i < d.len() ==> (#[trigger] d[i]).lines == 0,
    ensures
        range_sum(d, k) <= total_text(g0, if k < n0 {
            k
        } else {
            n0
        }),
    decreases k,
{
    if k > 0 {
        lemma_range_sum_padded(g0, d, k - 1, n0);
        if k - 1 < n0 {
            assert(rec_lines(d, (k - 1) as usize) == d[k - 1].lines);
        } else {
            assert(rec_lines(d, (k - 1) as usize) == 0);
        }
    }
}

/// Edge symmetry: one record stands among another's direct targets exactly
/// when the other stands among its direct includers.
pub proof fn lemma_edges_mirror(d: Seq<FileInfo>)
    requires
        edges_resolved(d),
    ensures
        edges_symmetric(d),
{
    assert forall|u: usize, v: usize|
        u < d.len() && v < d.len() implies ((#[trigger] d[u as int].includes@.contains(v)) <==> d[v as int].included_by@.contains(
        u,
    )) by {
        assert(d[u as int].includes@.contains(v) <==> direct_edge(d, u as int, v as int));
        assert(d[v as int].included_by@.contains(u) <==> direct_edge(d, u as int, v as int));
    }
}

/// A record's combined line count is never below its own code line count.
pub proof fn lemma_combined_at_least_own(d: Seq<FileInfo>)
    requires
        costs_resolved(d),
    ensures
        forall|i: int|
            0 <= i < d.len() ==> (#[trigger] d[i]).lines_with_all_includes >= d[i].lines,
{
}

/// Stub records are pure leaves: they carry no directives, so they pull
/// nothing in.
pub proof fn lemma_stubs_are_leaves(g0: Seq<FileInfo>, d: Seq<FileInfo>)
    requires
        d.len() <= usize::MAX,
        analyzed_base(g0, d),
    ensures
        forall|i: int| g0.len() <= i < d.len() ==> (#[trigger] d[i]).includes@.len() == 0,
{
    assert forall|i: int|
        g0.len() <= i < d.len() implies (#[trigger] d[i]).includes@.len() == 0 by {
        if d[i].includes@.len() > 0 {
            let v = d[i].includes@[0];
            assert(d[i].includes@.contains(v));
            assert(i < d.len() && i >= 0);
            assert((i as usize) as int == i);
            assert(d[(i as usize) as int].includes@.contains(v));
            assert(direct_edge(d, i, v as int));
            assert(stub_record(g0, d[i]));
            assert(false);
        }
    }
}

/// Run the whole engine over the loaded records. On success every record
/// carries its scan results, resolved edges, exact closures and exact
/// costs, and the graph is acyclic. A cycle halts the pipeline instead: the
/// result carries a witness pair `(a, b)` with `b` a remaining includer of
/// `a`, and every closure and cost field is left unset.
pub fn process_data(data: &mut Vec<FileInfo>) -> (r: Result<(), (usize, usize)>)
    requires
        names_unique(old(data)@),
        forall|i: int| 0 <= i < old(data)@.len() ==> record_clear(#[trigger] old(data)@[i]),
        pipeline_budget_ok(old(data)@),
    ensures
        analyzed_base(old(data)@, final(data)@),
        r is Ok ==> acyclic(final(data)@) && closures_resolved(final(data)@) && costs_resolved(
            final(data)@,
        ),
        r matches Err(w) ==> !acyclic(final(data)@) && w.0 < final(data)@.len() && w.1
            < final(data)@.len() && final(data)@[w.1 as int].includes@.contains(w.0)
            && closures_unset(final(data)@),
{
    let ghost g0 = old(data)@;
    let n0 = data.len();
    let all = process_step_parse(data);
    let ghost d1 = data@;
    proof {
        assert forall|i: int, j: int|
            0 <= i < d1.len() && 0 <= j < d1.len() && i != j implies d1[i].name@
            != d1[j].name@ by {
            assert(parsed_record(g0[i], d1[i]));
            assert(parsed_record(g0[j], d1[j]));
        }
        assert forall|i: int|
            0 <= i < n0 implies (#[trigger] d1[i]).lines <= g0[i].data@.len()
            && d1[i].parsed_includes@.len() <= d1[i].lines by {
            assert(parsed_record(g0[i], d1[i]));
            lemma_scan_bounds(g0[i].data@, 0);
            assert(include_views(d1[i].parsed_includes@).len() == d1[i].parsed_includes@.len());
        }
    }
    process_step_generate_stubs(data, &all);
    let ghost d2 = data@;
    proof {
        assert forall|i: int, j: int|
            0 <= i < d2.len() && 0 <= j < d2[i].parsed_includes@.len() implies has_name(
            d2,
            #[trigger] d2[i].parsed_includes@[j].name@,
        ) by {
            if i < n0 {
                assert(d2[i] == d1[i]);
                assert(name_views(all@).contains(d1[i].parsed_includes@[j].name@));
                let k = choose|k: int|
                    0 <= k < name_views(all@).len() && name_views(all@)[k]
                        == d1[i].parsed_includes@[j].name@;
                assert(all@[k]@ == d1[i].parsed_includes@[j].name@);
                assert(has_name(d2, all@[k]@));
            } else {
                assert(record_clear(d2[i]));
            }
        }
        assert forall|i: int|
            0 <= i < d2.len() implies (#[trigger] d2[i].includes@).len() == 0
            && d2[i].included_by@.len() == 0 by {
            if i < n0 {
                assert(parsed_record(g0[i], d1[i]));
                assert(record_clear(g0[i]));
            } else {
                assert(record_clear(d2[i]));
            }
        }
    }
    process_step_link_include(data);
    let ghost d3 = data@;
    proof {
        assert(fwd_edges_bounded(d3));
        assert(back_edges_bounded(d3));
        assert forall|u: usize, v: usize|
            u < d3.len() && v < d3.len() implies ((#[trigger] d3[u as int].includes@.contains(v))
            <==> d3[v as int].included_by@.contains(u)) by {
            assert(d3[u as int].includes@.contains(v) <==> direct_edge(d3, u as int, v as int));
            assert(d3[v as int].included_by@.contains(u) <==> direct_edge(d3, u as int, v as int));
        }
        assert(edges_symmetric(d3));
        // the base shape holds from here on
        assert forall|i: int| 0 <= i < n0 implies scanned_record(g0[i], #[trigger] d3[i]) by {
            assert(parsed_record(g0[i], d1[i]));
            assert(d2[i] == d1[i]);
            assert(linked_record(d2[i], d3[i]));
        }
        assert forall|i: int|
            n0 <= i < d3.len() implies stub_record(g0, #[trigger] d3[i]) && mentioned_upto(
            d3,
            n0 as int,
            d3[i].name@,
        ) by {
            assert(linked_record(d2[i], d3[i]));
            assert(record_clear(d2[i]));
            assert(name_views(all@).contains(d2[i].name@));
            let k = choose|k: int|
                0 <= k < name_views(all@).len() && name_views(all@)[k] == d2[i].name@;
            assert(all@[k]@ == d2[i].name@);
            assert(mentioned_upto(d1, d1.len() as int, all@[k]@));
            let (a, b) = choose|a: int, b: int|
                0 <= a < d1.len() && 0 <= b < d1[a].parsed_includes@.len()
                    && d1[a].parsed_includes@[b].name@ == all@[k]@;
            assert(d3[a].parsed_includes@ == d1[a].parsed_includes@);
            assert(d3[a].parsed_includes@[b].name@ == d3[i].name@);
            if has_name(g0, d2[i].name@) {
                let w = choose|w: int| 0 <= w < g0.len() && g0[w].name@ == d2[i].name@;
                assert(d1[w].name@ == d2[i].name@);
                assert(has_name(d1, d2[i].name@));
                assert(false);
            }
        }
        assert forall|i: int, j: int|
            0 <= i < d3.len() && 0 <= j < d3.len() && i != j implies d3[i].name@
            != d3[j].name@ by {
            assert(linked_record(d2[i], d3[i]));
            assert(linked_record(d2[j], d3[j]));
        }
        assert(analyzed_base(g0, d3));
    }
    let check = process_step_check_circular(data);
    if let Some(w) = check {
        proof {
            assert forall|i: int| 0 <= i < d3.len() implies closure_clear(#[trigger] d3[i]) by {
                assert(linked_record(d2[i], d3[i]));
                if i < n0 {
                    assert(parsed_record(g0[i], d1[i]));
                    assert(record_clear(g0[i]));
                } else {
                    assert(record_clear(d2[i]));
                }
            }
        }
        return Err(w);
    }
    proof {
        assert(acyclic(d3));
    }
    process_step_link_include_indirect(data);
    let len4 = data.len();
    let ghost d4 = data@;
    proof {
        assert(d4.len() == len4);
        assert forall|i: int|
            0 <= i < d4.len() implies (#[trigger] d4[i]).includes@ == d3[i].includes@
            && d4[i].included_by@ == d3[i].included_by@ && d4[i].lines == d3[i].lines by {
            assert(closure_record(d3[i], d4[i]));
        }
        lemma_cycles_stable(d3, d4);
        lemma_reaches_stable(d3, d4);
        // cost preconditions: bounds on the closure lists
        assert forall|i: int, v: usize|
            0 <= i < d4.len() && (#[trigger] d4[i].includes_indirect@.contains(v)) implies v
            < d4.len() by {
            assert(reaches(d4, true, i, v as int));
            let p = choose|p: Seq<int>|
                is_chain(d4, true, p) && p[0] == i && p[p.len() - 1] == v as int;
            assert(step(d4, true, p[p.len() - 2], p[p.len() - 1]));
        }
        assert forall|i: int, v: usize|
            0 <= i < d4.len() && (#[trigger] d4[i].included_by_indirect_sources@.contains(v))
            implies v < d4.len() by {}
        // an acyclic graph lets no record pull itself in
        assert forall|i: int|
            0 <= i < d4.len() implies !d4[i].includes_indirect@.contains(i as usize) by {
            if d4[i].includes_indirect@.contains(i as usize) {
                assert(reaches(d4, true, i, i));
                lemma_self_reach_cycle(d4, i);
            }
        }
        // the machine budget carries over to the aggregated sums
        let s_text = total_text(g0, n0 as int);
        assert forall|i: int| 0 <= i < d4.len() implies (#[trigger] d4[i]).lines == d2[i].lines by {
            assert(linked_record(d2[i], d3[i]));
            assert(closure_record(d3[i], d4[i]));
        }
        assert forall|i: int|
            0 <= i < n0 && i < d4.len() implies (#[trigger] d4[i]).lines
            <= g0[i].data@.len() by {
            assert(d2[i] == d1[i]);
        }
        assert forall|i: int| n0 <= i < d4.len() implies (#[trigger] d4[i]).lines == 0 by {
            assert(record_clear(d2[i]));
        }
        lemma_range_sum_padded(g0, d4, d4.len() as int, n0 as int);
        assert(total_lines(d4) <= s_text);
        lemma_directives_le_lines(d1, n0 as int);
        lemma_range_sum_padded(g0, d1, n0 as int, n0 as int);
        assert(total_directives(d1, n0 as int) <= s_text);
        assert(d4.len() <= n0 + all@.len());
        assert(d4.len() <= n0 + s_text);
        assert(total_lines(d4) * d4.len() <= usize::MAX) by (nonlinear_arith)
            requires
                total_lines(d4) <= s_text,
                d4.len() <= n0 + s_text,
                s_text * (n0 + s_text) <= usize::MAX,
        {}
        assert(cost_budget_ok(d4));
    }
    process_step_calc_costs(data);
    proof {
        let d5 = data@;
        assert forall|i: int| 0 <= i < d5.len() implies cost_record(d4[i], #[trigger] d5[i]) by {}
        assert forall|i: int|
            0 <= i < d5.len() implies (#[trigger] d5[i]).includes@ == d4[i].includes@
            && d5[i].included_by@ == d4[i].included_by@ && d5[i].name@ == d4[i].name@
            && d5[i].parsed_includes@ == d4[i].parsed_includes@ && d5[i].lines == d4[i].lines by {
            assert(cost_record(d4[i], d5[i]));
        }
        lemma_cycles_stable(d4, d5);
        lemma_reaches_stable(d4, d5);
        lemma_edges_stable(d3, d5);
        assert forall|i: int| 0 <= i < n0 implies scanned_record(g0[i], #[trigger] d5[i]) by {
            assert(closure_record(d3[i], d4[i]));
            assert(cost_record(d4[i], d5[i]));
            assert(scanned_record(g0[i], d3[i]));
        }
        assert forall|i: int|
            n0 <= i < d5.len() implies stub_record(g0, #[trigger] d5[i]) && mentioned_upto(
            d5,
            n0 as int,
            d5[i].name@,
        ) by {
            assert(closure_record(d3[i], d4[i]));
            assert(cost_record(d4[i], d5[i]));
            assert(stub_record(g0, d3[i]));
            assert(mentioned_upto(d3, n0 as int, d3[i].name@));
            let (a, b) = choose|a: int, b: int|
                0 <= a < n0 && a < d3.len() && 0 <= b < d3[a].parsed_includes@.len()
                    && d3[a].parsed_includes@[b].name@ == d3[i].name@;
            assert(d5[a].parsed_includes@[b].name@ == d5[i].name@);
        }
        assert forall|i: int, j: int|
            0 <= i < d5.len() && 0 <= j < d5.len() && i != j implies d5[i].name@
            != d5[j].name@ by {
            assert(d3[i].name@ != d3[j].name@);
        }
        assert forall|u: usize, v: usize|
            u < d5.len() && v < d5.len() implies ((#[trigger] d5[u as int].includes@.contains(v))
            <==> direct_edge(d5, u as int, v as int)) && ((
        #[trigger] d5[u as int].included_by@.contains(v)) <==> direct_edge(
            d5,
            v as int,
            u as int,
        )) by {
            assert(d3[u as int].includes@.contains(v) <==> direct_edge(d3, u as int, v as int));
            assert(d3[u as int].included_by@.contains(v) <==> direct_edge(d3, v as int, u as int));
        }
        assert forall|i: int, v: usize|
            0 <= i < d5.len() && ((#[trigger] d5[i].includes@.contains(v)) || (
            #[trigger] d5[i].included_by@.contains(v))) implies v < d5.len() by {
            assert(d5[i].includes@ == d3[i].includes@);
            assert(d5[i].included_by@ == d3[i].included_by@);
        }
        assert(analyzed_base(g0, d5));
        // closures: membership facts carry over from the closure pass
        assert forall|i: int, v: usize|
            0 <= i < d5.len() implies ((#[trigger] d5[i].includes_indirect@.contains(v)) <==> reaches(
            d5,
            true,
            i,
            v as int,
        )) && ((#[trigger] d5[i].included_by_indirect@.contains(v)) <==> reaches(
            d5,
            false,
            i,
            v as int,
        )) && ((#[trigger] d5[i].included_by_indirect_sources@.contains(v)) <==> (reaches(
            d5,
            false,
            i,
            v as int,
        ) && v < d5.len() && d5[v as int].source_file)) by {
            assert(cost_record(d4[i], d5[i]));
            assert(d4[i].includes_indirect@.contains(v) <==> reaches(d4, true, i, v as int));
            assert(d4[i].included_by_indirect@.contains(v) <==> reaches(d4, false, i, v as int));
            assert(d4[i].included_by_indirect_sources@.contains(v) <==> (reaches(
                d4,
                false,
                i,
                v as int,
            ) && v < d4.len() && d4[v as int].source_file));
            if v < d5.len() {
                assert(cost_record(d4[v as int], d5[v as int]));
            }
        }
        assert forall|i: int|
            0 <= i < d5.len() implies (#[trigger] d5[i].includes_indirect@).no_duplicates()
            && d5[i].included_by_indirect@.no_duplicates()
            && d5[i].included_by_indirect_sources@.no_duplicates() by {
            assert(cost_record(d4[i], d5[i]));
        }
        assert(closures_resolved(d5));
        // costs: the sums ignore the cost fields themselves
        assert forall|i: int|
            0 <= i < d5.len() implies (#[trigger] d5[i]).lines_with_all_includes == d5[i].lines
            + sum_lines(d5, d5[i].includes_indirect@) by {
            assert(d5[i].lines_with_all_includes == d4[i].lines + sum_lines(
                d4,
                d4[i].includes_indirect@,
            ));
            lemma_sum_stable(d4, d5, d4[i].includes_indirect@);
        }
        assert(costs_resolved(d5));
        assert(acyclic(d5));
    }
    Ok(())
}

} // verus!
