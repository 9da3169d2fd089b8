//! Character-level helpers shared by the scanner: the whitespace class and a
//! conversion from a string to an indexable vector of its characters.

use vstd::prelude::*;

verus! {

/// Whitespace as the scanner treats it: the Unicode whitespace and control
/// characters, written out by code point. The first range covers the C0
/// controls and the space; the second covers DEL, the C1 controls and the
/// no-break space; the rest are the remaining White_Space code points. Such
/// characters never start a code line.
pub open spec fn is_space_char(c: char) -> bool {
    let u = c as u32;
    ||| u <= 0x20
    ||| (0x7F <= u && u <= 0xA0)
    ||| u == 0x1680
    ||| (0x2000 <= u && u <= 0x200A)
    ||| u == 0x2028
    ||| u == 0x2029
    ||| u == 0x202F
    ||| u == 0x205F
    ||| u == 0x3000
}

/// Executable form of `is_space_char`.
pub fn is_space(c: char) -> (r: bool)
    ensures
        r == is_space_char(c),
{
    let u = c as u32;
    u <= 0x20 || (0x7F <= u && u <= 0xA0) || u == 0x1680 || (0x2000 <= u && u <= 0x200A) || u
        == 0x2028 || u == 0x2029 || u == 0x202F || u == 0x205F || u == 0x3000
}

/// The characters of a string, collected into an indexable vector.
pub fn chars_of(s: &str) -> (r: Vec<char>)
    ensures
        r@ == s@,
{
    let mut r: Vec<char> = Vec::new();
    for c in it: s.chars()
        invariant
            it.seq() == s@,
            r@ == it.seq().take(it.index() as int),
    {
        r.push(c);
    }
    proof {
        assert(r@ =~= s@);
    }
    r
}

} // verus!
