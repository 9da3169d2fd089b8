//! The directive-aware scanner. It walks the raw text one character at a
//! time, consumes whitespace and comments, counts code lines, and extracts
//! inclusion directives in source order.
//!
//! The specification model works on the character sequence of the text, with
//! an integer position; each executable function is proved against the
//! corresponding recursive specification function.

use vstd::prelude::*;

use crate::record::IncludeInfo;
use crate::text::{is_space, is_space_char};

verus! {

/// The position just past the current physical line: one past the next
/// newline at or after `p`, or the end of the text if no newline remains.
pub open spec fn line_end(s: Seq<char>, p: int) -> int
    decreases s.len() - p when p <= s.len()
{
    if p < 0 || p >= s.len() {
        s.len() as int
    } else if s[p] == '\n' {
        p + 1
    } else {
        line_end(s, p + 1)
    }
}

/// The position just past the first close sequence `*/` at or after `p`, or
/// the end of the text if the comment never closes.
pub open spec fn block_close_end(s: Seq<char>, p: int) -> int
    decreases s.len() - p when p <= s.len()
{
    if p < 0 || p + 1 >= s.len() {
        s.len() as int
    } else if s[p] == '*' && s[p + 1] == '/' {
        p + 2
    } else {
        block_close_end(s, p + 1)
    }
}

/// The first position at or after `p` whose character is not whitespace, or
/// the end of the text.
pub open spec fn skip_spaces(s: Seq<char>, p: int) -> int
    decreases s.len() - p when p <= s.len()
{
    if p < 0 || p >= s.len() {
        s.len() as int
    } else if is_space_char(s[p]) {
        skip_spaces(s, p + 1)
    } else {
        p
    }
}

/// The first position at or after `p` holding the character `c`, or the end
/// of the text if `c` does not occur.
pub open spec fn find_char_from(s: Seq<char>, p: int, c: char) -> int
    decreases s.len() - p when p <= s.len()
{
    if p < 0 || p >= s.len() {
        s.len() as int
    } else if s[p] == c {
        p
    } else {
        find_char_from(s, p + 1, c)
    }
}

/// A line comment opens at `p`.
pub open spec fn line_comment_at(s: Seq<char>, p: int) -> bool {
    0 <= p && p + 1 < s.len() && s[p] == '/' && s[p + 1] == '/'
}

/// A block comment opens at `p`.
pub open spec fn block_comment_at(s: Seq<char>, p: int) -> bool {
    0 <= p && p + 1 < s.len() && s[p] == '/' && s[p + 1] == '*'
}

/// The directive keyword stands at `p`.
pub open spec fn keyword_at(s: Seq<char>, p: int) -> bool {
    &&& 0 <= p
    &&& p + 7 <= s.len()
    &&& s[p] == 'i'
    &&& s[p + 1] == 'n'
    &&& s[p + 2] == 'c'
    &&& s[p + 3] == 'l'
    &&& s[p + 4] == 'u'
    &&& s[p + 5] == 'd'
    &&& s[p + 6] == 'e'
}

/// The directive recognized at code-line position `p`, if any: a directive
/// marker, optional whitespace, the keyword, optional whitespace, then a
/// delimited target name. The name runs to the first matching close
/// delimiter anywhere in the remaining text; with no close delimiter, or
/// with an unsupported shape after the keyword, no directive is recognized
/// (the permissive choice: the line still counts as code).
pub open spec fn directive_at(s: Seq<char>, p: int) -> Option<(Seq<char>, bool)> {
    if !(0 <= p < s.len() && s[p] == '#') {
        None
    } else {
        let q = skip_spaces(s, p + 1);
        if !keyword_at(s, q) {
            None
        } else {
            let r = skip_spaces(s, q + 7);
            if r < s.len() && s[r] == '<' {
                let e = find_char_from(s, r + 1, '>');
                if e < s.len() {
                    Some((s.subrange(r + 1, e), true))
                } else {
                    None
                }
            } else if r < s.len() && s[r] == '"' {
                let e = find_char_from(s, r + 1, '"');
                if e < s.len() {
                    Some((s.subrange(r + 1, e), false))
                } else {
                    None
                }
            } else {
                None
            }
        }
    }
}

pub proof fn lemma_line_end_bounds(s: Seq<char>, p: int)
    requires
        0 <= p <= s.len(),
    ensures
        p <= line_end(s, p) <= s.len(),
        p < s.len() ==> p + 1 <= line_end(s, p),
    decreases s.len() - p,
{
    if p < s.len() && s[p] != '\n' {
        lemma_line_end_bounds(s, p + 1);
    }
}

pub proof fn lemma_block_close_bounds(s: Seq<char>, p: int)
    requires
        0 <= p <= s.len(),
    ensures
        p <= block_close_end(s, p) <= s.len(),
    decreases s.len() - p,
{
    if p + 1 < s.len() && !(s[p] == '*' && s[p + 1] == '/') {
        lemma_block_close_bounds(s, p + 1);
    }
}

/// Code lines reached from position `p`: each position that is neither
/// whitespace nor inside a comment starts one code line, and the scan then
/// resumes at the start of the next physical line.
pub open spec fn code_lines_from(s: Seq<char>, p: int) -> nat
    decreases s.len() - p when p <= s.len()
        via code_lines_from_decreases
{
    if p < 0 || p >= s.len() {
        0
    } else if is_space_char(s[p]) {
        code_lines_from(s, p + 1)
    } else if line_comment_at(s, p) {
        code_lines_from(s, line_end(s, p))
    } else if block_comment_at(s, p) {
        code_lines_from(s, block_close_end(s, p + 1))
    } else {
        1 + code_lines_from(s, line_end(s, p))
    }
}

#[via_fn]
proof fn code_lines_from_decreases(s: Seq<char>, p: int) {
    if 0 <= p < s.len() {
        lemma_line_end_bounds(s, p);
        lemma_block_close_bounds(s, p + 1);
    }
}

/// Directives recognized from position `p` on, in source order, with
/// duplicates preserved: at most one per code line.
pub open spec fn parsed_from(s: Seq<char>, p: int) -> Seq<(Seq<char>, bool)>
    decreases s.len() - p when p <= s.len()
        via parsed_from_decreases
{
    if p < 0 || p >= s.len() {
        Seq::empty()
    } else if is_space_char(s[p]) {
        parsed_from(s, p + 1)
    } else if line_comment_at(s, p) {
        parsed_from(s, line_end(s, p))
    } else if block_comment_at(s, p) {
        parsed_from(s, block_close_end(s, p + 1))
    } else {
        match directive_at(s, p) {
            Some(d) => seq![d] + parsed_from(s, line_end(s, p)),
            None => parsed_from(s, line_end(s, p)),
        }
    }
}

#[via_fn]
proof fn parsed_from_decreases(s: Seq<char>, p: int) {
    if 0 <= p < s.len() {
        lemma_line_end_bounds(s, p);
        lemma_block_close_bounds(s, p + 1);
    }
}

/// Physical lines from position `p` on, as a plain line counter sees them: a
/// final fragment without a closing newline still counts as a line.
pub open spec fn lines_from(s: Seq<char>, p: int) -> nat
    decreases s.len() - p when p <= s.len()
        via lines_from_decreases
{
    if p < 0 || p >= s.len() {
        0
    } else {
        1 + lines_from(s, line_end(s, p))
    }
}

#[via_fn]
proof fn lines_from_decreases(s: Seq<char>, p: int) {
    if 0 <= p < s.len() {
        lemma_line_end_bounds(s, p);
    }
}

/// A scan never counts more code lines than there are characters left, and
/// recognizes at most one directive per code line.
pub proof fn lemma_scan_bounds(s: Seq<char>, p: int)
    requires
        0 <= p <= s.len(),
    ensures
        code_lines_from(s, p) <= s.len() - p,
        parsed_from(s, p).len() <= code_lines_from(s, p),
    decreases s.len() - p,
{
    if p < s.len() {
        if is_space_char(s[p]) {
            lemma_scan_bounds(s, p + 1);
        } else if line_comment_at(s, p) {
            lemma_line_end_bounds(s, p);
            lemma_scan_bounds(s, line_end(s, p));
        } else if block_comment_at(s, p) {
            lemma_block_close_bounds(s, p + 1);
            lemma_scan_bounds(s, block_close_end(s, p + 1));
        } else {
            lemma_line_end_bounds(s, p);
            lemma_scan_bounds(s, line_end(s, p));
        }
    }
}


/// The rest of the current physical line, including its newline, is all
/// whitespace.
pub open spec fn line_blank_from(s: Seq<char>, p: int) -> bool
    decreases s.len() - p when p <= s.len()
{
    if p < 0 || p >= s.len() {
        true
    } else if s[p] == '\n' {
        true
    } else if is_space_char(s[p]) {
        line_blank_from(s, p + 1)
    } else {
        false
    }
}

/// From line-start position `p` to the end of the text, every physical line
/// holds a character that is not whitespace, and no comment opens anywhere
/// in it.
pub open spec fn plain_text_from(s: Seq<char>, p: int) -> bool
    decreases s.len() - p when p <= s.len()
        via plain_text_from_decreases
{
    if p < 0 || p >= s.len() {
        true
    } else {
        &&& !line_blank_from(s, p)
        &&& (forall|q: int|
            p <= q < line_end(s, p) - 1 ==> !((#[trigger] s[q]) == '/' && (s[q + 1] == '/' || s[q
                + 1] == '*')))
        &&& plain_text_from(s, line_end(s, p))
    }
}

#[via_fn]
proof fn plain_text_from_decreases(s: Seq<char>, p: int) {
    if 0 <= p < s.len() {
        lemma_line_end_bounds(s, p);
    }
}

/// Within one comment-free, nonblank stretch of a line, the scan records
/// exactly one code line and resumes at the next physical line.
proof fn lemma_plain_line_step(s: Seq<char>, p: int)
    requires
        0 <= p < s.len(),
        !line_blank_from(s, p),
        forall|q: int|
            p <= q < line_end(s, p) - 1 ==> !((#[trigger] s[q]) == '/' && (s[q + 1] == '/' || s[q
                + 1] == '*')),
    ensures
        code_lines_from(s, p) == 1 + code_lines_from(s, line_end(s, p)),
    decreases s.len() - p,
{
    lemma_line_end_bounds(s, p);
    if is_space_char(s[p]) {
        assert(s[p] != '\n');
        if p + 1 >= s.len() {
            assert(line_blank_from(s, p + 1));
            assert(line_blank_from(s, p));
            assert(false);
        }
        lemma_plain_line_step(s, p + 1);
        assert(line_end(s, p) == line_end(s, p + 1));
    } else {
        if p + 1 < s.len() && s[p] == '/' && (s[p + 1] == '/' || s[p + 1] == '*') {
            lemma_line_end_bounds(s, p + 1);
            assert(line_end(s, p) == line_end(s, p + 1));
            assert(p < line_end(s, p) - 1);
            assert(false);
        }
        assert(!line_comment_at(s, p) && !block_comment_at(s, p));
    }
}

/// For a text with no blank line and no comment, the scanner counts exactly
/// the physical lines: the code line count equals the text line count.
pub proof fn lemma_plain_text_counts(s: Seq<char>, p: int)
    requires
        0 <= p <= s.len(),
        plain_text_from(s, p),
    ensures
        code_lines_from(s, p) == lines_from(s, p),
    decreases s.len() - p,
{
    if p < s.len() {
        lemma_line_end_bounds(s, p);
        lemma_plain_line_step(s, p);
        lemma_plain_text_counts(s, line_end(s, p));
    }
}

/// A block comment that opens at the start of the text and never closes
/// before its end consumes the whole file: no code line remains.
pub proof fn lemma_block_comment_whole_file(s: Seq<char>)
    requires
        s.len() >= 2,
        s[0] == '/',
        s[1] == '*',
        block_close_end(s, 1) == s.len(),
    ensures
        code_lines_from(s, 0) == 0,
{
    assert(('/' as u32) == 47);
    assert(!is_space_char(s[0]));
    assert(block_comment_at(s, 0));
    assert(!line_comment_at(s, 0));
    assert(code_lines_from(s, 0) == code_lines_from(s, block_close_end(s, 1)));
    assert(code_lines_from(s, s.len() as int) == 0);
}

/// The views of a directive vector, for contracts over parsed results.
pub open spec fn include_views(v: Seq<IncludeInfo>) -> Seq<(Seq<char>, bool)> {
    v.map_values(|x: IncludeInfo| x@)
}

/// Physical line count of the whole text.
pub fn count_file_lines(data: &str) -> (n: usize)
    ensures
        n == lines_from(data@, 0),
{
    let ghost s = data@;
    let len = data.unicode_len();
    let mut p: usize = 0;
    let mut n: usize = 0;
    while p < len
        invariant
            s == data@,
            len == s.len(),
            p <= len,
            n <= p,
            lines_from(s, 0) == n + lines_from(s, p as int),
        decreases len - p,
    {
        proof {
            lemma_line_end_bounds(s, p as int);
        }
        n = n + 1;
        p = skip_to_end_of_line(data, p);
    }
    n
}

/// Whether a whitespace character stands at `p`; if so, the position just
/// past it. At the end of the text there is nothing to skip.
pub fn skip_whitespace(s: &str, p: usize) -> (r: Option<usize>)
    requires
        p <= s@.len(),
    ensures
        r matches Some(q) ==> p < s@.len() && is_space_char(s@[p as int]) && q == p + 1,
        r is None ==> p == s@.len() || !is_space_char(s@[p as int]),
{
    if p < s.unicode_len() && is_space(s.get_char(p)) {
        Some(p + 1)
    } else {
        None
    }
}

/// The position just past the current physical line.
pub fn skip_to_end_of_line(s: &str, p: usize) -> (r: usize)
    requires
        p <= s@.len(),
    ensures
        r == line_end(s@, p as int),
{
    let len = s.unicode_len();
    let mut q = p;
    while q < len && s.get_char(q) != '\n'
        invariant
            len == s@.len(),
            p <= q <= len,
            line_end(s@, p as int) == line_end(s@, q as int),
        decreases len - q,
    {
        q = q + 1;
    }
    if q < len {
        q + 1
    } else {
        q
    }
}

/// Whether a comment opens at `p`; if so, the position where scanning
/// resumes after it. A block comment that never closes consumes the rest of
/// the text.
pub fn skip_comment(s: &str, p: usize) -> (r: Option<usize>)
    requires
        p <= s@.len(),
    ensures
        line_comment_at(s@, p as int) ==> (r matches Some(x) && x == line_end(s@, p as int)),
        !line_comment_at(s@, p as int) && block_comment_at(s@, p as int) ==> (r matches Some(x)
            && x == block_close_end(s@, (p + 1) as int)),
        !line_comment_at(s@, p as int) && !block_comment_at(s@, p as int) ==> r is None,
{
    let len = s.unicode_len();
    if p < len && p < len - 1 && s.get_char(p) == '/' && s.get_char(p + 1) == '/' {
        Some(skip_to_end_of_line(s, p))
    } else if p < len && p < len - 1 && s.get_char(p) == '/' && s.get_char(p + 1) == '*' {
        let mut q = p + 1;
        while q < len - 1 && !(s.get_char(q) == '*' && s.get_char(q + 1) == '/')
            invariant
                len == s@.len(),
                p + 1 <= q <= len,
                block_close_end(s@, (p + 1) as int) == block_close_end(s@, q as int),
            decreases len - q,
        {
            q = q + 1;
        }
        if q < len - 1 {
            Some(q + 2)
        } else {
            Some(len)
        }
    } else {
        None
    }
}

/// The target name between `p` and the first close delimiter, or nothing if
/// the close delimiter never occurs.
pub fn extract_include_name(s: &str, p: usize, closing: char) -> (r: Option<String>)
    requires
        p <= s@.len(),
    ensures
        ({
            let e = find_char_from(s@, p as int, closing);
            &&& (r is Some <==> e < s@.len())
            &&& (r matches Some(name) ==> name@ == s@.subrange(p as int, e))
        }),
{
    let len = s.unicode_len();
    let mut q = p;
    while q < len && s.get_char(q) != closing
        invariant
            len == s@.len(),
            p <= q <= len,
            find_char_from(s@, p as int, closing) == find_char_from(s@, q as int, closing),
        decreases len - q,
    {
        q = q + 1;
    }
    if q < len {
        Some(s.substring_char(p, q).to_owned())
    } else {
        None
    }
}

/// The directive recognized at code-line position `p`, if any. An
/// unsupported shape after the directive marker yields no directive; the
/// caller still counts the line as code.
pub fn try_extract_include(s: &str, p: usize) -> (r: Option<IncludeInfo>)
    requires
        p < s@.len(),
    ensures
        r matches Some(ii) ==> directive_at(s@, p as int) == Some(ii@),
        r is None ==> directive_at(s@, p as int) is None,
{
    let len = s.unicode_len();
    if s.get_char(p) != '#' {
        return None;
    }
    let mut q = p + 1;
    loop
        invariant
            len == s@.len(),
            p + 1 <= q <= len,
            skip_spaces(s@, (p + 1) as int) == skip_spaces(s@, q as int),
        ensures
            q == skip_spaces(s@, (p + 1) as int),
        decreases len - q,
    {
        match skip_whitespace(s, q) {
            Some(qq) => {
                q = qq;
            },
            None => {
                break ;
            },
        }
    }
    if len - q < 7 {
        return None;
    }
    if !(s.get_char(q) == 'i' && s.get_char(q + 1) == 'n' && s.get_char(q + 2) == 'c'
        && s.get_char(q + 3) == 'l' && s.get_char(q + 4) == 'u' && s.get_char(q + 5) == 'd'
        && s.get_char(q + 6) == 'e') {
        return None;
    }
    let mut t = q + 7;
    loop
        invariant
            len == s@.len(),
            q + 7 <= t <= len,
            skip_spaces(s@, (q + 7) as int) == skip_spaces(s@, t as int),
        ensures
            t == skip_spaces(s@, (q + 7) as int),
        decreases len - t,
    {
        match skip_whitespace(s, t) {
            Some(tt) => {
                t = tt;
            },
            None => {
                break ;
            },
        }
    }
    if t < len && s.get_char(t) == '<' {
        match extract_include_name(s, t + 1, '>') {
            Some(name) => Some(IncludeInfo { name, system: true }),
            None => None,
        }
    } else if t < len && s.get_char(t) == '"' {
        match extract_include_name(s, t + 1, '"') {
            Some(name) => Some(IncludeInfo { name, system: false }),
            None => None,
        }
    } else {
        None
    }
}

/// Scan one text: the directives in source order and the code line count.
pub fn parse_file_data(data: &str) -> (r: (Vec<IncludeInfo>, usize))
    ensures
        include_views(r.0@) == parsed_from(data@, 0),
        r.1 == code_lines_from(data@, 0),
{
    let ghost s = data@;
    let len = data.unicode_len();
    let mut ret: Vec<IncludeInfo> = Vec::new();
    let mut clines: usize = 0;
    let mut p: usize = 0;
    while p < len
        invariant
            s == data@,
            len == s.len(),
            p <= len,
            clines <= p,
            code_lines_from(s, 0) == clines + code_lines_from(s, p as int),
            parsed_from(s, 0) == include_views(ret@) + parsed_from(s, p as int),
        decreases len - p,
    {
        let ghost p0 = p as int;
        if let Some(pp) = skip_whitespace(data, p) {
            p = pp;
            continue ;
        }
        if let Some(pp) = skip_comment(data, p) {
            proof {
                lemma_line_end_bounds(s, p0);
                lemma_block_close_bounds(s, p0 + 1);
            }
            p = pp;
            continue ;
        }
        proof {
            lemma_line_end_bounds(s, p0);
        }
        clines = clines + 1;
        if let Some(inc) = try_extract_include(data, p) {
            let ghost prev = ret@;
            proof {
                assert(parsed_from(s, p0) == seq![inc@] + parsed_from(s, line_end(s, p0)));
            }
            ret.push(inc);
            proof {
                assert(include_views(ret@) =~= include_views(prev) + seq![inc@]);
                assert(include_views(prev) + (seq![inc@] + parsed_from(s, line_end(s, p0)))
                    =~= include_views(ret@) + parsed_from(s, line_end(s, p0)));
            }
        }
        p = skip_to_end_of_line(data, p);
    }
    proof {
        assert(include_views(ret@) + parsed_from(s, p as int) =~= include_views(ret@));
    }
    (ret, clines)
}

} // verus!
