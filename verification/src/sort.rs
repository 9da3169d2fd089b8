//! Ordering of records for the reporting layer: a closed set of sort keys,
//! an optional reversed direction, name order as a secondary key, and a
//! stable rule that places stubs and translation-unit roots at the bottom.

use vstd::prelude::*;
use vstd::utf8::encode_utf8;

use crate::record::FileInfo;
use crate::text::chars_of;

verus! {

/// The sort keys the reporting layer may ask for.
#[derive(Clone, Copy)]
pub enum SortMode {
    FileName,
    FileSize,
    NumIncludes,
    TextLines,
    Lines,
    LinesWithAllIncludes,
    ContribWithAllIncludes,
    ContribSelfOnly,
}

/// Strict lexicographic order on character sequences, by code point: the
/// order Rust gives strings.
pub open spec fn lex_lt(a: Seq<char>, b: Seq<char>) -> bool
    decreases a.len(),
{
    if b.len() == 0 {
        false
    } else if a.len() == 0 {
        true
    } else if a[0] != b[0] {
        (a[0] as u32) < (b[0] as u32)
    } else {
        lex_lt(a.skip(1), b.skip(1))
    }
}

/// Stubs sort after everything else, translation-unit roots after plain
/// headers.
pub open spec fn group_rank(fi: FileInfo) -> int {
    (if fi.stab_file {
        2int
    } else {
        0int
    }) + (if fi.source_file {
        1int
    } else {
        0int
    })
}

/// The numeric key a sort mode compares by; the name mode compares by the
/// secondary name order alone.
pub open spec fn mode_key(fi: FileInfo, mode: SortMode) -> int {
    match mode {
        SortMode::FileName => 0,
        SortMode::FileSize => (encode_utf8(fi.data@).len() as usize) as int,  // byte size as the machine reports it
        SortMode::NumIncludes => fi.includes@.len() as int,
        SortMode::TextLines => fi.text_lines as int,
        SortMode::Lines => fi.lines as int,
        SortMode::LinesWithAllIncludes => fi.lines_with_all_includes as int,
        SortMode::ContribWithAllIncludes => fi.lines_contributes_total as int,
        SortMode::ContribSelfOnly => fi.lines_contributes_self as int,
    }
}

/// Record `a` stands strictly before record `b` in the requested listing:
/// first by group, then by the requested key (reversed when `dir` is set;
/// for the by-name key the name comparison itself is the one reversed),
/// then by ascending name, and finally by original position, which keeps
/// the order stable.
pub open spec fn sort_before(data: Seq<FileInfo>, mode: SortMode, dir: bool, a: int, b: int) -> bool {
    let ga = group_rank(data[a]);
    let gb = group_rank(data[b]);
    let ka = if dir {
        mode_key(data[b], mode)
    } else {
        mode_key(data[a], mode)
    };
    let kb = if dir {
        mode_key(data[a], mode)
    } else {
        mode_key(data[b], mode)
    };
    let na = if dir && mode is FileName {
        data[b].name@
    } else {
        data[a].name@
    };
    let nb = if dir && mode is FileName {
        data[a].name@
    } else {
        data[b].name@
    };
    if ga != gb {
        ga < gb
    } else if ka != kb {
        ka < kb
    } else if na != nb {
        lex_lt(na, nb)
    } else {
        a < b
    }
}

proof fn lemma_lex_trans(a: Seq<char>, b: Seq<char>, c: Seq<char>)
    requires
        lex_lt(a, b),
        lex_lt(b, c),
    ensures
        lex_lt(a, c),
    decreases a.len(),
{
    if a.len() > 0 && b.len() > 0 && c.len() > 0 && a[0] == b[0] && b[0] == c[0] {
        lemma_lex_trans(a.skip(1), b.skip(1), c.skip(1));
    }
}

proof fn lemma_lex_irrefl(a: Seq<char>)
    ensures
        !lex_lt(a, a),
    decreases a.len(),
{
    if a.len() > 0 {
        lemma_lex_irrefl(a.skip(1));
    }
}

proof fn lemma_lex_connected(a: Seq<char>, b: Seq<char>)
    requires
        !lex_lt(a, b),
        !lex_lt(b, a),
    ensures
        a == b,
    decreases a.len(),
{
    if b.len() == 0 {
        if a.len() > 0 {
            assert(lex_lt(b, a));
        }
        assert(a =~= b);
    } else if a.len() == 0 {
        assert(lex_lt(a, b));
        assert(a =~= b);
    } else {
        if a[0] != b[0] {
            assert((a[0] as u32) == (b[0] as u32));
            vstd::utf8::char_u32_cast(a[0], a[0] as u32);
            vstd::utf8::char_u32_cast(b[0], b[0] as u32);
            assert(false);
        }
        lemma_lex_connected(a.skip(1), b.skip(1));
        assert forall|t: int| 0 <= t < a.len() implies a[t] == b[t] by {
            if t > 0 {
                assert(a.skip(1)[t - 1] == b.skip(1)[t - 1]);
            }
        }
        assert(a =~= b);
    }
}

/// The listing order is a strict total order on positions.
proof fn lemma_sort_before_trans(
    data: Seq<FileInfo>,
    mode: SortMode,
    dir: bool,
    a: int,
    b: int,
    c: int,
)
    requires
        sort_before(data, mode, dir, a, b),
        sort_before(data, mode, dir, b, c),
    ensures
        sort_before(data, mode, dir, a, c),
{
    if lex_lt(data[a].name@, data[b].name@) && lex_lt(data[b].name@, data[c].name@) {
        lemma_lex_trans(data[a].name@, data[b].name@, data[c].name@);
    }
    if lex_lt(data[c].name@, data[b].name@) && lex_lt(data[b].name@, data[a].name@) {
        lemma_lex_trans(data[c].name@, data[b].name@, data[a].name@);
    }
    lemma_lex_irrefl(data[a].name@);
    lemma_lex_irrefl(data[b].name@);
    lemma_lex_irrefl(data[c].name@);
}

proof fn lemma_sort_before_total(data: Seq<FileInfo>, mode: SortMode, dir: bool, a: int, b: int)
    requires
        a != b,
        !sort_before(data, mode, dir, a, b),
    ensures
        sort_before(data, mode, dir, b, a),
{
    if data[a].name@ != data[b].name@ {
        if !lex_lt(data[a].name@, data[b].name@) && !lex_lt(data[b].name@, data[a].name@) {
            lemma_lex_connected(data[a].name@, data[b].name@);
        }
    }
}

/// Whether `x` sorts strictly before `y` under the requested order.
fn name_lt(x: &String, y: &String) -> (r: bool)
    ensures
        r == lex_lt(x@, y@),
{
    let xv = chars_of(x.as_str());
    let yv = chars_of(y.as_str());
    proof {
        assert(x@.skip(0) =~= x@);
        assert(y@.skip(0) =~= y@);
    }
    let mut i: usize = 0;
    while i < xv.len() && i < yv.len() && xv[i] == yv[i]
        invariant
            xv@ == x@,
            yv@ == y@,
            i <= xv@.len(),
            i <= yv@.len(),
            lex_lt(x@, y@) == lex_lt(x@.skip(i as int), y@.skip(i as int)),
        decreases xv@.len() - i,
    {
        proof {
            assert(x@.skip(i as int)[0] == y@.skip(i as int)[0]);
            assert(x@.skip(i as int).skip(1) =~= x@.skip(i as int + 1));
            assert(y@.skip(i as int).skip(1) =~= y@.skip(i as int + 1));
        }
        i = i + 1;
    }
    if i < xv.len() && i < yv.len() {
        proof {
            assert(x@.skip(i as int)[0] == x@[i as int]);
            assert(y@.skip(i as int)[0] == y@[i as int]);
        }
        (xv[i] as u32) < (yv[i] as u32)
    } else if i < yv.len() {
        proof {
            assert(x@.skip(i as int).len() == 0);
            assert(y@.skip(i as int).len() > 0);
        }
        true
    } else {
        proof {
            assert(y@.skip(i as int).len() == 0);
        }
        false
    }
}

/// Executable form of `sort_before`.
fn precedes(data: &Vec<FileInfo>, mode: SortMode, dir: bool, a: usize, b: usize) -> (r: bool)
    requires
        a < data@.len(),
        b < data@.len(),
    ensures
        r == sort_before(data@, mode, dir, a as int, b as int),
{
    let ga: u32 = (if data[a].stab_file {
        2
    } else {
        0
    }) + (if data[a].source_file {
        1
    } else {
        0
    });
    let gb: u32 = (if data[b].stab_file {
        2
    } else {
        0
    }) + (if data[b].source_file {
        1
    } else {
        0
    });
    if ga != gb {
        return ga < gb;
    }
    let ka_raw = raw_key(data, mode, a);
    let kb_raw = raw_key(data, mode, b);
    let ka = if dir {
        kb_raw
    } else {
        ka_raw
    };
    let kb = if dir {
        ka_raw
    } else {
        kb_raw
    };
    if ka != kb {
        return ka < kb;
    }
    let by_name = match mode {
        SortMode::FileName => true,
        _ => false,
    };
    if !data[a].name.eq(&data[b].name) {
        if dir && by_name {
            return name_lt(&data[b].name, &data[a].name);
        }
        return name_lt(&data[a].name, &data[b].name);
    }
    a < b
}

/// The numeric key of record `i` under the requested mode.
fn raw_key(data: &Vec<FileInfo>, mode: SortMode, i: usize) -> (r: usize)
    requires
        i < data@.len(),
    ensures
        r == mode_key(data@[i as int], mode),
{
    match mode {
        SortMode::FileName => 0,
        SortMode::FileSize => data[i].data.as_str().len(),
        SortMode::NumIncludes => data[i].includes.len(),
        SortMode::TextLines => data[i].text_lines,
        SortMode::Lines => data[i].lines,
        SortMode::LinesWithAllIncludes => data[i].lines_with_all_includes,
        SortMode::ContribWithAllIncludes => data[i].lines_contributes_total,
        SortMode::ContribSelfOnly => data[i].lines_contributes_self,
    }
}

/// The positions of all records, arranged for the requested listing: by
/// group (stubs and roots at the bottom), then by the requested key in the
/// requested direction — for the by-name key the name order itself follows
/// the direction — then by ascending name, stably.
pub fn custom_sort(data: &Vec<FileInfo>, mode: SortMode, dir: bool) -> (ret: Vec<usize>)
    ensures
        ret@.len() == data@.len(),
        ret@.no_duplicates(),
        forall|t: int| 0 <= t < ret@.len() ==> (#[trigger] ret@[t]) < data@.len(),
        forall|t1: int, t2: int|
            0 <= t1 < t2 < ret@.len() ==> sort_before(
                data@,
                mode,
                dir,
                #[trigger] ret@[t1] as int,
                #[trigger] ret@[t2] as int,
            ),
{
    let n = data.len();
    let mut ret: Vec<usize> = Vec::new();
    let mut idx: usize = 0;
    while idx < n
        invariant
            n == data@.len(),
            idx <= n,
            ret@.len() == idx,
            forall|t: int| 0 <= t < idx ==> ret@[t] == t,
        decreases n - idx,
    {
        ret.push(idx);
        idx = idx + 1;
    }
    proof {
        assert forall|t1: int, t2: int|
            0 <= t1 < ret@.len() && 0 <= t2 < ret@.len() && t1 != t2 implies ret@[t1]
            != ret@[t2] by {}
    }
    let mut i: usize = 1;
    while i < ret.len()
        invariant
            n == data@.len(),
            ret@.len() == n,
            ret@.no_duplicates(),
            forall|t: int| 0 <= t < n ==> (#[trigger] ret@[t]) < n,
            i >= 1,
            forall|t1: int, t2: int|
                0 <= t1 < t2 < i && t2 < n ==> sort_before(
                    data@,
                    mode,
                    dir,
                    #[trigger] ret@[t1] as int,
                    #[trigger] ret@[t2] as int,
                ),
        decreases n - i,
    {
        let mut j: usize = i;
        while j > 0 && precedes(data, mode, dir, ret[j], ret[j - 1])
            invariant
                n == data@.len(),
                ret@.len() == n,
                ret@.no_duplicates(),
                forall|t: int| 0 <= t < n ==> (#[trigger] ret@[t]) < n,
                j <= i < n,
                forall|t1: int, t2: int|
                    0 <= t1 < t2 <= i && t2 != j ==> sort_before(
                        data@,
                        mode,
                        dir,
                        #[trigger] ret@[t1] as int,
                        #[trigger] ret@[t2] as int,
                    ),
            decreases j,
        {
            let ghost before = ret@;
            let x = ret[j - 1];
            let y = ret[j];
            ret[j - 1] = y;
            ret[j] = x;
            proof {
                assert(ret@ =~= before.update(j - 1, y).update(j as int, x));
                assert forall|t1: int, t2: int|
                    0 <= t1 < ret@.len() && 0 <= t2 < ret@.len() && t1 != t2 implies ret@[t1]
                    != ret@[t2] by {
                    let p1 = if t1 == j {
                        j - 1
                    } else if t1 == j - 1 {
                        j as int
                    } else {
                        t1
                    };
                    let p2 = if t2 == j {
                        j - 1
                    } else if t2 == j - 1 {
                        j as int
                    } else {
                        t2
                    };
                    assert(ret@[t1] == before[p1] && ret@[t2] == before[p2]);
                }
                assert forall|t1: int, t2: int|
                    0 <= t1 < t2 <= i && t2 != j - 1 implies sort_before(
                    data@,
                    mode,
                    dir,
                    #[trigger] ret@[t1] as int,
                    #[trigger] ret@[t2] as int,
                ) by {
                    if t1 == j - 1 {
                        // the moved element compares before its old neighbour and,
                        // through it, before everything that followed
                        if t2 == j {
                            assert(sort_before(data@, mode, dir, y as int, x as int));
                        } else {
                            assert(sort_before(data@, mode, dir, before[j - 1] as int, before[t2] as int));
                            assert(sort_before(data@, mode, dir, y as int, x as int));
                            lemma_sort_before_trans(
                                data@,
                                mode,
                                dir,
                                y as int,
                                x as int,
                                before[t2] as int,
                            );
                        }
                    } else if t2 == j {
                        assert(ret@[t2] == before[j - 1]);
                        assert(sort_before(data@, mode, dir, before[t1] as int, before[j - 1] as int));
                    } else if t1 == j {
                        assert(ret@[t1] == before[j - 1] && ret@[t2] == before[t2]);
                        assert(sort_before(data@, mode, dir, before[j - 1] as int, before[t2] as int));
                    } else {
                        assert(ret@[t1] == before[t1] && ret@[t2] == before[t2]);
                        assert(sort_before(data@, mode, dir, before[t1] as int, before[t2] as int));
                    }
                }
            }
            j = j - 1;
        }
        proof {
            if j > 0 {
                // the scan stopped: the left neighbour does not come after
                assert(!sort_before(data@, mode, dir, ret@[j as int] as int, ret@[j - 1] as int));
                assert(ret@[j - 1] != ret@[j as int]);
                lemma_sort_before_total(
                    data@,
                    mode,
                    dir,
                    ret@[j as int] as int,
                    ret@[j - 1] as int,
                );
            }
            assert forall|t1: int, t2: int|
                0 <= t1 < t2 <= i implies sort_before(
                data@,
                mode,
                dir,
                #[trigger] ret@[t1] as int,
                #[trigger] ret@[t2] as int,
            ) by {
                if t2 == j {
                    if t1 == j - 1 {
                    } else {
                        assert(sort_before(
                            data@,
                            mode,
                            dir,
                            ret@[t1] as int,
                            ret@[j - 1] as int,
                        ));
                        lemma_sort_before_trans(
                            data@,
                            mode,
                            dir,
                            ret@[t1] as int,
                            ret@[j - 1] as int,
                            ret@[j as int] as int,
                        );
                    }
                }
            }
        }
        i = i + 1;
    }
    ret
}

} // verus!
