//! The file registry phases: scanning every record, synthesizing stub records
//! for referenced names that no real file carries, and resolving each parsed
//! directive into a pair of direct graph edges.

use vstd::prelude::*;

use crate::lexer::{
    code_lines_from, count_file_lines, include_views, lines_from, parse_file_data, parsed_from,
};
use crate::graph::lemma_push_contains;
use crate::record::{names_unique, record_clear, FileInfo};

verus! {

/// The views of a name vector.
pub open spec fn name_views(v: Seq<String>) -> Seq<Seq<char>> {
    v.map_values(|x: String| x@)
}

/// Some record carries this name.
pub open spec fn has_name(data: Seq<FileInfo>, n: Seq<char>) -> bool {
    exists|i: int| 0 <= i < data.len() && data[i].name@ == n
}

/// Some directive of a record with index below `upto` targets this name.
pub open spec fn mentioned_upto(data: Seq<FileInfo>, upto: int, n: Seq<char>) -> bool {
    exists|i: int, j: int|
        0 <= i < upto && i < data.len() && 0 <= j < data[i].parsed_includes@.len() && data[i].parsed_includes@[j].name@
            == n
}

/// The scanner's result stands in `fi`; every other field is as in `o`.
pub open spec fn parsed_record(o: FileInfo, fi: FileInfo) -> bool {
    &&& fi.name@ == o.name@
    &&& fi.data@ == o.data@
    &&& fi.stab_file == o.stab_file
    &&& fi.source_file == o.source_file
    &&& fi.text_lines == lines_from(o.data@, 0)
    &&& fi.lines == code_lines_from(o.data@, 0)
    &&& include_views(fi.parsed_includes@) == parsed_from(o.data@, 0)
    &&& fi.includes@ == o.includes@
    &&& fi.included_by@ == o.included_by@
    &&& fi.includes_indirect@ == o.includes_indirect@
    &&& fi.included_by_indirect@ == o.included_by_indirect@
    &&& fi.included_by_indirect_sources@ == o.included_by_indirect_sources@
    &&& fi.lines_with_all_includes == o.lines_with_all_includes
    &&& fi.lines_contributes_total == o.lines_contributes_total
    &&& fi.lines_contributes_self == o.lines_contributes_self
}

/// A direct dependency: some directive of record `i` targets the name of
/// record `j`.
pub open spec fn direct_edge(data: Seq<FileInfo>, i: int, j: int) -> bool {
    &&& 0 <= i < data.len()
    &&& 0 <= j < data.len()
    &&& exists|k: int|
        0 <= k < data[i].parsed_includes@.len() && data[i].parsed_includes@[k].name@
            == data[j].name@
}

/// As `direct_edge`, counting only the first `upto` directives of record `i`.
pub open spec fn direct_edge_upto(data: Seq<FileInfo>, i: int, j: int, upto: int) -> bool {
    &&& 0 <= i < data.len()
    &&& 0 <= j < data.len()
    &&& exists|k: int|
        0 <= k < upto && k < data[i].parsed_includes@.len() && data[i].parsed_includes@[k].name@
            == data[j].name@
}

/// The summed directive counts of the first `k` records.
pub open spec fn total_directives(data: Seq<FileInfo>, k: int) -> nat
    decreases k,
{
    if k <= 0 {
        0
    } else {
        total_directives(data, k - 1) + data[k - 1].parsed_includes@.len()
    }
}

/// Directive counts ignore every field but the directive lists.
proof fn lemma_total_directives_stable(pre: Seq<FileInfo>, post: Seq<FileInfo>, k: int)
    requires
        forall|i: int|
            0 <= i < k ==> (#[trigger] post[i]).parsed_includes@.len()
                == pre[i].parsed_includes@.len(),
    ensures
        total_directives(post, k) == total_directives(pre, k),
    decreases k,
{
    if k > 0 {
        lemma_total_directives_stable(pre, post, k - 1);
    }
}

/// Dependencies are a function of names and directive lists alone: two
/// registry states that agree on those agree on every dependency.
pub(crate) proof fn lemma_edges_stable(pre: Seq<FileInfo>, post: Seq<FileInfo>)
    requires
        pre.len() == post.len(),
        forall|i: int|
            0 <= i < pre.len() ==> (#[trigger] post[i]).name@ == pre[i].name@
                && post[i].parsed_includes@ == pre[i].parsed_includes@,
    ensures
        forall|a: int, b: int| #[trigger] direct_edge(post, a, b) <==> direct_edge(pre, a, b),
        forall|a: int, b: int, up: int|
            #[trigger] direct_edge_upto(post, a, b, up) <==> direct_edge_upto(pre, a, b, up),
        forall|nm: Seq<char>| #[trigger] has_name(post, nm) <==> has_name(pre, nm),
        names_unique(pre) ==> names_unique(post),
{
    assert forall|a: int, b: int| #[trigger] direct_edge(post, a, b) implies direct_edge(
        pre,
        a,
        b,
    ) by {
        let k = choose|k: int|
            0 <= k < post[a].parsed_includes@.len() && post[a].parsed_includes@[k].name@
                == post[b].name@;
        assert(pre[a].parsed_includes@[k].name@ == pre[b].name@);
    }
    assert forall|a: int, b: int| #[trigger] direct_edge(pre, a, b) implies direct_edge(
        post,
        a,
        b,
    ) by {
        let k = choose|k: int|
            0 <= k < pre[a].parsed_includes@.len() && pre[a].parsed_includes@[k].name@
                == pre[b].name@;
        assert(post[a].parsed_includes@[k].name@ == post[b].name@);
    }
    assert forall|a: int, b: int, up: int| #[trigger] direct_edge_upto(post, a, b, up)
        implies direct_edge_upto(pre, a, b, up) by {
        let k = choose|k: int|
            0 <= k < up && k < post[a].parsed_includes@.len() && post[a].parsed_includes@[k].name@
                == post[b].name@;
        assert(pre[a].parsed_includes@[k].name@ == pre[b].name@);
    }
    assert forall|a: int, b: int, up: int| #[trigger] direct_edge_upto(pre, a, b, up)
        implies direct_edge_upto(post, a, b, up) by {
        let k = choose|k: int|
            0 <= k < up && k < pre[a].parsed_includes@.len() && pre[a].parsed_includes@[k].name@
                == pre[b].name@;
        assert(post[a].parsed_includes@[k].name@ == post[b].name@);
    }
    assert forall|nm: Seq<char>| #[trigger] has_name(post, nm) implies has_name(pre, nm) by {
        let w = choose|w: int| 0 <= w < post.len() && post[w].name@ == nm;
        assert(pre[w].name@ == nm);
    }
    assert forall|nm: Seq<char>| #[trigger] has_name(pre, nm) implies has_name(post, nm) by {
        let w = choose|w: int| 0 <= w < pre.len() && pre[w].name@ == nm;
        assert(post[w].name@ == nm);
    }
}

/// Whether the name vector holds this name.
fn contains_name(v: &Vec<String>, n: &String) -> (r: bool)
    ensures
        r == name_views(v@).contains(n@),
{
    let mut i: usize = 0;
    while i < v.len()
        invariant
            i <= v@.len(),
            forall|k: int| 0 <= k < i ==> v@[k]@ != n@,
        decreases v@.len() - i,
    {
        if v[i].eq(n) {
            assert(name_views(v@)[i as int] == n@);
            return true;
        }
        i = i + 1;
    }
    assert forall|k: int| 0 <= k < name_views(v@).len() implies name_views(v@)[k] != n@ by {
        assert(name_views(v@)[k] == v@[k]@);
    }
    false
}

/// Whether the index vector holds this index.
fn contains_index(v: &Vec<usize>, x: usize) -> (r: bool)
    ensures
        r == v@.contains(x),
{
    let mut i: usize = 0;
    while i < v.len()
        invariant
            i <= v@.len(),
            forall|k: int| 0 <= k < i ==> v@[k] != x,
        decreases v@.len() - i,
    {
        if v[i] == x {
            return true;
        }
        i = i + 1;
    }
    false
}

/// Whether some record carries this name.
fn has_record(data: &Vec<FileInfo>, n: &String) -> (r: bool)
    ensures
        r == has_name(data@, n@),
{
    let mut i: usize = 0;
    while i < data.len()
        invariant
            i <= data@.len(),
            forall|k: int| 0 <= k < i ==> data@[k].name@ != n@,
        decreases data@.len() - i,
    {
        if data[i].name.eq(n) {
            return true;
        }
        i = i + 1;
    }
    false
}

/// The index of the first record carrying this name.
fn find_by_name(data: &Vec<FileInfo>, n: &String) -> (r: usize)
    requires
        has_name(data@, n@),
    ensures
        r < data@.len(),
        data@[r as int].name@ == n@,
{
    let mut i: usize = 0;
    while i < data.len()
        invariant
            i <= data@.len(),
            forall|k: int| 0 <= k < i ==> data@[k].name@ != n@,
        decreases data@.len() - i,
    {
        if data[i].name.eq(n) {
            return i;
        }
        i = i + 1;
    }
    proof {
        assert(false);
    }
    0
}

/// Scan every record: set its physical and code line counts and its directive
/// list, and return every mentioned target name once.
pub fn process_step_parse(data: &mut Vec<FileInfo>) -> (ret: Vec<String>)
    ensures
        final(data)@.len() == old(data)@.len(),
        forall|i: int|
            0 <= i < final(data)@.len() ==> parsed_record(
                old(data)@[i],
                #[trigger] final(data)@[i],
            ),
        name_views(ret@).no_duplicates(),
        ret@.len() <= total_directives(final(data)@, final(data)@.len() as int),
        forall|kk: int|
            0 <= kk < ret@.len() ==> mentioned_upto(
                final(data)@,
                final(data)@.len() as int,
                #[trigger] ret@[kk]@,
            ),
        forall|a: int, b: int|
            0 <= a < final(data)@.len() && 0 <= b < final(data)@[a].parsed_includes@.len()
                ==> name_views(ret@).contains(
                #[trigger] final(data)@[a].parsed_includes@[b].name@,
            ),
{
    let n = data.len();
    let mut ret: Vec<String> = Vec::new();
    let mut idx: usize = 0;
    while idx < n
        invariant
            n == data@.len(),
            n == old(data)@.len(),
            idx <= n,
            forall|i: int| idx <= i < n ==> data@[i] == old(data)@[i],
            forall|i: int| 0 <= i < idx ==> parsed_record(old(data)@[i], #[trigger] data@[i]),
            name_views(ret@).no_duplicates(),
            ret@.len() <= total_directives(data@, idx as int),
            forall|kk: int|
                0 <= kk < ret@.len() ==> mentioned_upto(data@, idx as int, #[trigger] ret@[kk]@),
            forall|a: int, b: int|
                0 <= a < idx && 0 <= b < data@[a].parsed_includes@.len() ==> name_views(
                    ret@,
                ).contains(#[trigger] data@[a].parsed_includes@[b].name@),
        decreases n - idx,
    {
        let tl = count_file_lines(&data[idx].data);
        let (incs, cl) = parse_file_data(&data[idx].data);
        let ghost ginc = incs@;
        let m = incs.len();
        let mut j: usize = 0;
        while j < m
            invariant
                n == data@.len(),
                n == old(data)@.len(),
                idx < n,
                forall|i: int| idx <= i < n ==> data@[i] == old(data)@[i],
                forall|i: int| 0 <= i < idx ==> parsed_record(old(data)@[i], #[trigger] data@[i]),
                incs@ == ginc,
                m == ginc.len(),
                j <= m,
                name_views(ret@).no_duplicates(),
                ret@.len() <= total_directives(data@, idx as int) + j,
                forall|kk: int|
                    0 <= kk < ret@.len() ==> mentioned_upto(data@, idx as int, #[trigger] ret@[kk]@)
                        || (exists|b: int| 0 <= b < j && ginc[b].name@ == ret@[kk]@),
                forall|a: int, b: int|
                    0 <= a < idx && 0 <= b < data@[a].parsed_includes@.len() ==> name_views(
                        ret@,
                    ).contains(#[trigger] data@[a].parsed_includes@[b].name@),
                forall|b: int| 0 <= b < j ==> name_views(ret@).contains(#[trigger] ginc[b].name@),
            decreases m - j,
        {
            let ghost prev = ret@;
            if !contains_name(&ret, &incs[j].name) {
                ret.push(incs[j].name.clone());
                proof {
                    assert(name_views(ret@) =~= name_views(prev).push(ginc[j as int].name@));
                    lemma_push_contains(name_views(prev), ginc[j as int].name@);
                }
            }
            proof {
                assert forall|kk: int|
                    0 <= kk < ret@.len() implies mentioned_upto(
                    data@,
                    idx as int,
                    #[trigger] ret@[kk]@,
                ) || (exists|b: int| 0 <= b < j + 1 && ginc[b].name@ == ret@[kk]@) by {
                    if kk < prev.len() {
                        assert(ret@[kk]@ == prev[kk]@);
                        if !mentioned_upto(data@, idx as int, ret@[kk]@) {
                            let b = choose|b: int| 0 <= b < j && ginc[b].name@ == prev[kk]@;
                            assert(0 <= b < j + 1 && ginc[b].name@ == ret@[kk]@);
                        }
                    } else {
                        assert(ret@[kk]@ == ginc[j as int].name@);
                        assert(0 <= j < j + 1 && ginc[j as int].name@ == ret@[kk]@);
                    }
                }
                assert forall|b: int| 0 <= b < j + 1 implies name_views(ret@).contains(
                    #[trigger] ginc[b].name@,
                ) by {
                    if b < j {
                        let w = choose|w: int|
                            0 <= w < name_views(prev).len() && name_views(prev)[w] == ginc[b].name@;
                        assert(name_views(ret@)[w] == ginc[b].name@);
                    } else {
                        assert(name_views(ret@).contains(ginc[j as int].name@));
                    }
                }
                assert forall|a: int, b: int|
                    0 <= a < idx && 0 <= b < data@[a].parsed_includes@.len() implies name_views(
                    ret@,
                ).contains(#[trigger] data@[a].parsed_includes@[b].name@) by {
                    let w = choose|w: int|
                        0 <= w < name_views(prev).len() && name_views(prev)[w]
                            == data@[a].parsed_includes@[b].name@;
                    assert(name_views(ret@)[w] == data@[a].parsed_includes@[b].name@);
                }
            }
            j = j + 1;
        }
        let ghost before = data@;
        data[idx].text_lines = tl;
        data[idx].lines = cl;
        data[idx].parsed_includes = incs;
        proof {
            assert(data@[idx as int].parsed_includes@ == ginc);
            assert forall|i: int| 0 <= i < n && i != idx implies data@[i] == before[i] by {}
            assert(parsed_record(old(data)@[idx as int], data@[idx as int]));
            lemma_total_directives_stable(before, data@, idx as int);
            assert(total_directives(data@, (idx + 1) as int) == total_directives(data@, idx as int)
                + ginc.len());
            assert forall|kk: int|
                0 <= kk < ret@.len() implies mentioned_upto(
                data@,
                (idx + 1) as int,
                #[trigger] ret@[kk]@,
            ) by {
                if mentioned_upto(before, idx as int, ret@[kk]@) {
                    let (a, b) = choose|a: int, b: int|
                        0 <= a < idx && a < before.len() && 0 <= b
                            < before[a].parsed_includes@.len() && before[a].parsed_includes@[b].name@
                            == ret@[kk]@;
                    assert(data@[a].parsed_includes@[b].name@ == ret@[kk]@);
                } else {
                    let b = choose|b: int| 0 <= b < m && ginc[b].name@ == ret@[kk]@;
                    assert(data@[idx as int].parsed_includes@[b].name@ == ret@[kk]@);
                }
            }
            assert forall|a: int, b: int|
                0 <= a < idx + 1 && 0 <= b < data@[a].parsed_includes@.len() implies name_views(
                ret@,
            ).contains(#[trigger] data@[a].parsed_includes@[b].name@) by {
                if a < idx {
                    assert(data@[a] == before[a]);
                    assert(name_views(ret@).contains(before[a].parsed_includes@[b].name@));
                } else {
                    assert(data@[a].parsed_includes@[b].name@ == ginc[b].name@);
                    assert(name_views(ret@).contains(ginc[b].name@));
                }
            }
        }
        idx = idx + 1;
    }
    ret
}

/// Synthesize a stub record for every mentioned name with no matching
/// record: synthesis is idempotent because each missing name is added once.
pub fn process_step_generate_stubs(data: &mut Vec<FileInfo>, all: &Vec<String>)
    requires
        names_unique(old(data)@),
        name_views(all@).no_duplicates(),
    ensures
        old(data)@.len() <= final(data)@.len(),
        final(data)@.len() <= old(data)@.len() + all@.len(),
        forall|i: int| 0 <= i < old(data)@.len() ==> final(data)@[i] == old(data)@[i],
        names_unique(final(data)@),
        forall|kk: int| 0 <= kk < all@.len() ==> has_name(final(data)@, #[trigger] all@[kk]@),
        forall|i: int|
            old(data)@.len() <= i < final(data)@.len() ==> {
                let fi = #[trigger] final(data)@[i];
                &&& fi.stab_file
                &&& !fi.source_file
                &&& fi.data@ =~= Seq::<char>::empty()
                &&& record_clear(fi)
                &&& name_views(all@).contains(fi.name@)
                &&& !has_name(old(data)@, fi.name@)
            },
{
    let n0 = data.len();
    let mut k: usize = 0;
    while k < all.len()
        invariant
            n0 == old(data)@.len(),
            n0 <= data@.len(),
            data@.len() <= n0 + k,
            k <= all@.len(),
            forall|i: int| 0 <= i < n0 ==> data@[i] == old(data)@[i],
            names_unique(data@),
            forall|kk: int| 0 <= kk < k ==> has_name(data@, #[trigger] all@[kk]@),
            forall|i: int|
                n0 <= i < data@.len() ==> {
                    let fi = #[trigger] data@[i];
                    &&& fi.stab_file
                    &&& !fi.source_file
                    &&& fi.data@ =~= Seq::<char>::empty()
                    &&& record_clear(fi)
                    &&& name_views(all@).contains(fi.name@)
                    &&& !has_name(old(data)@, fi.name@)
                },
        decreases all@.len() - k,
    {
        let ghost prev = data@;
        let missing = !has_record(data, &all[k]);
        if missing {
            let stub = FileInfo::new(all[k].clone(), String::new(), true, false);
            data.push(stub);
            proof {
                assert(data@[prev.len() as int].name@ == all@[k as int]@);
                assert(name_views(all@)[k as int] == all@[k as int]@);
                assert forall|i: int|
                    0 <= i < n0 && !has_name(prev, all@[k as int]@) implies data@[i].name@
                    != all@[k as int]@ by {
                    assert(prev[i].name@ != all@[k as int]@);
                }
                assert forall|i: int, jj: int|
                    0 <= i < data@.len() && 0 <= jj < data@.len() && i != jj implies data@[i].name@
                    != data@[jj].name@ by {
                    if i < prev.len() && jj < prev.len() {
                        assert(data@[i] == prev[i] && data@[jj] == prev[jj]);
                    } else if i < prev.len() {
                        assert(data@[jj].name@ == all@[k as int]@);
                        assert(prev[i].name@ != all@[k as int]@);
                    } else if jj < prev.len() {
                        assert(data@[i].name@ == all@[k as int]@);
                        assert(prev[jj].name@ != all@[k as int]@);
                    }
                }
            }
        }
        proof {
            assert forall|kk: int| 0 <= kk < k + 1 implies has_name(
                data@,
                #[trigger] all@[kk]@,
            ) by {
                if kk < k {
                    let w = choose|w: int| 0 <= w < prev.len() && prev[w].name@ == all@[kk]@;
                    assert(data@[w].name@ == all@[kk]@);
                } else {
                    if missing {
                        assert(data@[prev.len() as int].name@ == all@[k as int]@);
                    }
                }
            }
        }
        k = k + 1;
    }
}

/// Resolve every parsed directive of every record into one forward edge on
/// the referencing record and one backward edge on the target, keeping both
/// edge lists duplicate-free.
pub fn process_step_link_include(data: &mut Vec<FileInfo>)
    requires
        names_unique(old(data)@),
        forall|i: int, j: int|
            0 <= i < old(data)@.len() && 0 <= j < old(data)@[i].parsed_includes@.len() ==> has_name(
                old(data)@,
                #[trigger] old(data)@[i].parsed_includes@[j].name@,
            ),
        forall|i: int| 0 <= i < old(data)@.len() ==> (#[trigger] old(data)@[i].includes@).len() == 0,
        forall|i: int|
            0 <= i < old(data)@.len() ==> (#[trigger] old(data)@[i].included_by@).len() == 0,
    ensures
        final(data)@.len() == old(data)@.len(),
        forall|i: int|
            0 <= i < final(data)@.len() ==> linked_record(old(data)@[i], #[trigger] final(data)@[i]),
        forall|i: int|
            0 <= i < final(data)@.len() ==> (#[trigger] final(data)@[i].includes@).no_duplicates()
                && final(data)@[i].included_by@.no_duplicates(),
        forall|i: int, v: usize|
            0 <= i < final(data)@.len() && (#[trigger] final(data)@[i].includes@.contains(v)) ==> v
                < final(data)@.len(),
        forall|i: int, v: usize|
            0 <= i < final(data)@.len() && (#[trigger] final(data)@[i].included_by@.contains(v))
                ==> v < final(data)@.len(),
        forall|u: usize, v: usize|
            u < final(data)@.len() && v < final(data)@.len() ==> ((#[trigger] final(data)@[u as int].includes@.contains(v))
                <==> direct_edge(final(data)@, u as int, v as int)),
        forall|u: usize, v: usize|
            u < final(data)@.len() && v < final(data)@.len() ==> ((#[trigger] final(data)@[u as int].included_by@.contains(v))
                <==> direct_edge(final(data)@, v as int, u as int)),
{
    let n = data.len();
    proof {
        assert forall|i: int|
            0 <= i < n implies (#[trigger] data@[i].includes@).no_duplicates()
            && data@[i].included_by@.no_duplicates() by {
            assert(old(data)@[i].includes@.len() == 0);
            assert(old(data)@[i].included_by@.len() == 0);
        }
        assert forall|i: int, v: usize|
            0 <= i < n && (#[trigger] data@[i].includes@.contains(v)) implies v < n by {
            assert(old(data)@[i].includes@.len() == 0);
        }
        assert forall|i: int, v: usize|
            0 <= i < n && (#[trigger] data@[i].included_by@.contains(v)) implies v < n by {
            assert(old(data)@[i].included_by@.len() == 0);
        }
        assert forall|u: usize, v: usize|
            u < n && v < n implies ((#[trigger] data@[u as int].includes@.contains(v)) <==> data@[v as int].included_by@.contains(
            u,
        )) by {
            assert(old(data)@[u as int].includes@.len() == 0);
            assert(old(data)@[v as int].included_by@.len() == 0);
        }
        assert forall|u: usize, v: usize|
            u < n && v < n implies !(#[trigger] data@[u as int].includes@.contains(v)) by {
            assert(old(data)@[u as int].includes@.len() == 0);
        }
    }
    let mut idx: usize = 0;
    while idx < n
        invariant
            n == data@.len(),
            n == old(data)@.len(),
            idx <= n,
            names_unique(data@),
            forall|i: int| 0 <= i < n ==> linked_record(old(data)@[i], #[trigger] data@[i]),
            forall|i: int, j: int|
                0 <= i < n && 0 <= j < data@[i].parsed_includes@.len() ==> has_name(
                    data@,
                    #[trigger] data@[i].parsed_includes@[j].name@,
                ),
            forall|i: int|
                0 <= i < n ==> (#[trigger] data@[i].includes@).no_duplicates()
                    && data@[i].included_by@.no_duplicates(),
            forall|i: int, v: usize|
                0 <= i < n && (#[trigger] data@[i].includes@.contains(v)) ==> v < n,
            forall|i: int, v: usize|
                0 <= i < n && (#[trigger] data@[i].included_by@.contains(v)) ==> v < n,
            forall|u: usize, v: usize|
                u < n && v < n ==> ((#[trigger] data@[u as int].includes@.contains(v)) <==> data@[v as int].included_by@.contains(u)),
            forall|u: usize, v: usize|
                u < n && v < n ==> ((#[trigger] data@[u as int].includes@.contains(v)) <==> (
                (u < idx && direct_edge(data@, u as int, v as int)))),
        decreases n - idx,
    {
        let m = data[idx].parsed_includes.len();
        proof {
            // seeds the solver with the current record's edge list, which the
            // inner loop's entry check needs in scope
            assert(data@[idx as int].includes@.no_duplicates());
        }
        let mut k: usize = 0;
        while k < m
            invariant
                n == data@.len(),
                n == old(data)@.len(),
                idx < n,
                m == data@[idx as int].parsed_includes@.len(),
                k <= m,
                names_unique(data@),
                forall|i: int| 0 <= i < n ==> linked_record(old(data)@[i], #[trigger] data@[i]),
                forall|i: int, j: int|
                    0 <= i < n && 0 <= j < data@[i].parsed_includes@.len() ==> has_name(
                        data@,
                        #[trigger] data@[i].parsed_includes@[j].name@,
                    ),
                forall|i: int|
                    0 <= i < n ==> (#[trigger] data@[i].includes@).no_duplicates()
                        && data@[i].included_by@.no_duplicates(),
                forall|i: int, v: usize|
                    0 <= i < n && (#[trigger] data@[i].includes@.contains(v)) ==> v < n,
                forall|i: int, v: usize|
                    0 <= i < n && (#[trigger] data@[i].included_by@.contains(v)) ==> v < n,
                forall|u: usize, v: usize|
                    u < n && v < n ==> ((#[trigger] data@[u as int].includes@.contains(v)) <==> data@[v as int].included_by@.contains(u)),
                forall|u: usize, v: usize|
                    u < n && v < n ==> ((#[trigger] data@[u as int].includes@.contains(v)) <==> (
                    (u < idx && direct_edge(data@, u as int, v as int)) || (u == idx
                        && direct_edge_upto(data@, u as int, v as int, k as int)))),
            decreases m - k,
        {
            let ghost pre = data@;
            let that = find_by_name(data, &data[idx].parsed_includes[k].name);
            proof {
                assert(direct_edge_upto(pre, idx as int, that as int, (k + 1) as int));
                assert forall|v: usize|
                    v < n && direct_edge_upto(pre, idx as int, v as int, (k + 1) as int) && v
                        != that implies direct_edge_upto(pre, idx as int, v as int, k as int) by {
                    let kk = choose|kk: int|
                        0 <= kk < k + 1 && kk < pre[idx as int].parsed_includes@.len()
                            && pre[idx as int].parsed_includes@[kk].name@ == pre[v as int].name@;
                    if kk == k {
                        assert(pre[v as int].name@ == pre[that as int].name@);
                        assert(v as int == that as int);
                    }
                }
                assert forall|v: usize|
                    v < n && direct_edge_upto(pre, idx as int, v as int, k as int)
                        implies direct_edge_upto(pre, idx as int, v as int, (k + 1) as int) by {
                    let kk = choose|kk: int|
                        0 <= kk < k && kk < pre[idx as int].parsed_includes@.len()
                            && pre[idx as int].parsed_includes@[kk].name@ == pre[v as int].name@;
                    assert(0 <= kk < k + 1 && pre[idx as int].parsed_includes@[kk].name@
                        == pre[v as int].name@);
                }
            }
            let had = contains_index(&data[idx].includes, that);
            if !had {
                data[idx].includes.push(that);
                data[that].included_by.push(idx);
            }
            proof {
                if !had {
                    assert(data@[idx as int].includes@ =~= pre[idx as int].includes@.push(that));
                    assert(data@[that as int].included_by@ =~= pre[that as int].included_by@.push(
                        idx,
                    ));
                    assert forall|i: int|
                        0 <= i < n && i != idx && i != that implies data@[i] == pre[i] by {}
                    assert forall|i: int|
                        0 <= i < n implies (#[trigger] data@[i]).name@ == pre[i].name@
                        && data@[i].parsed_includes@ == pre[i].parsed_includes@ && linked_record(
                        old(data)@[i],
                        data@[i],
                    ) by {
                        if i != idx && i != that {
                            assert(data@[i] == pre[i]);
                        }
                    }
                    lemma_edges_stable(pre, data@);
                    lemma_push_contains(pre[idx as int].includes@, that);
                    lemma_push_contains(pre[that as int].included_by@, idx);
                    assert(!pre[that as int].included_by@.contains(idx));
                    assert forall|i: int|
                        0 <= i < n && i != idx implies (#[trigger] data@[i]).includes@
                        == pre[i].includes@ by {
                        if i != that {
                            assert(data@[i] == pre[i]);
                        }
                    }
                    assert forall|i: int|
                        0 <= i < n && i != that implies (#[trigger] data@[i]).included_by@
                        == pre[i].included_by@ by {
                        if i != idx {
                            assert(data@[i] == pre[i]);
                        }
                    }
                    assert forall|i: int|
                        0 <= i < n implies (#[trigger] data@[i].includes@).no_duplicates()
                        && data@[i].included_by@.no_duplicates() by {
                        assert(pre[i].includes@.no_duplicates());
                        assert(pre[i].included_by@.no_duplicates());
                    }
                    assert forall|u: usize, v: usize|
                        u < n && v < n implies ((#[trigger] data@[u as int].includes@.contains(v))
                        <==> data@[v as int].included_by@.contains(u)) by {
                        assert(pre[u as int].includes@.contains(v) <==> pre[v as int].included_by@.contains(
                            u,
                        ));
                    }
                } else {
                    assert(data@ == pre);
                }
                assert forall|u: usize, v: usize|
                    u < n && v < n implies ((#[trigger] data@[u as int].includes@.contains(v))
                    <==> ((u < idx && direct_edge(data@, u as int, v as int)) || (u == idx
                    && direct_edge_upto(data@, u as int, v as int, (k + 1) as int)))) by {
                    if !had {
                        assert(direct_edge(data@, u as int, v as int) <==> direct_edge(
                            pre,
                            u as int,
                            v as int,
                        ));
                        assert(direct_edge_upto(data@, u as int, v as int, (k + 1) as int)
                            <==> direct_edge_upto(pre, u as int, v as int, (k + 1) as int));
                    }
                    assert(pre[u as int].includes@.contains(v) <==> ((u < idx && direct_edge(
                        pre,
                        u as int,
                        v as int,
                    )) || (u == idx && direct_edge_upto(pre, u as int, v as int, k as int))));
                    if u == idx {
                        if v == that {
                            assert(direct_edge_upto(pre, idx as int, v as int, (k + 1) as int));
                            if !had {
                                assert(data@[u as int].includes@.contains(v));
                            }
                        } else {
                            if !had {
                                assert(data@[u as int].includes@.contains(v)
                                    <==> pre[u as int].includes@.contains(v));
                            }
                        }
                    } else {
                        if !had {
                            assert(data@[u as int].includes@ == pre[u as int].includes@);
                        }
                    }
                }
            }
            k = k + 1;
        }
        idx = idx + 1;
    }
    proof {
        assert forall|u: usize, v: usize|
            u < n && v < n implies ((#[trigger] data@[u as int].included_by@.contains(v)) <==> direct_edge(
            data@,
            v as int,
            u as int,
        )) by {
            assert(data@[v as int].includes@.contains(u) <==> data@[u as int].included_by@.contains(
                v,
            ));
            assert(data@[v as int].includes@.contains(u) <==> direct_edge(
                data@,
                v as int,
                u as int,
            ));
        }
    }
}

/// The resolver touched only the two edge lists; every other field is as in
/// `o`.
pub open spec fn linked_record(o: FileInfo, fi: FileInfo) -> bool {
    &&& fi.name@ == o.name@
    &&& fi.data@ == o.data@
    &&& fi.stab_file == o.stab_file
    &&& fi.source_file == o.source_file
    &&& fi.text_lines == o.text_lines
    &&& fi.lines == o.lines
    &&& fi.parsed_includes@ == o.parsed_includes@
    &&& fi.includes_indirect@ == o.includes_indirect@
    &&& fi.included_by_indirect@ == o.included_by_indirect@
    &&& fi.included_by_indirect_sources@ == o.included_by_indirect_sources@
    &&& fi.lines_with_all_includes == o.lines_with_all_includes
    &&& fi.lines_contributes_total == o.lines_contributes_total
    &&& fi.lines_contributes_self == o.lines_contributes_self
}

} // verus!
