//! The file records that the engine works on: one record per real file or
//! synthesized stub, carrying the scanned counts, the direct and indirect
//! inclusion relations, and the aggregated cost metrics.

use vstd::prelude::*;

verus! {

/// One parsed inclusion directive, exactly as encountered in the text: the
/// target name verbatim, and the delimiter style it was written with.
pub struct IncludeInfo {
    pub name: String,
    /// true if the target stood in angle brackets (system style), false if it
    /// stood in double quotes (local style)
    pub system: bool,
}

impl View for IncludeInfo {
    type V = (Seq<char>, bool);

    open spec fn view(&self) -> (Seq<char>, bool) {
        (self.name@, self.system)
    }
}

/// One file record. Records are created for real files at load time and for
/// stubs during stub synthesis; the pipeline phases fill the derived fields in
/// place.
pub struct FileInfo {
    /// unique key across the whole registry (flat namespace, no paths)
    pub name: String,
    /// full file contents; empty for stubs
    pub data: String,
    /// true if synthesized for a referenced name with no real file
    pub stab_file: bool,
    /// true if the file is a translation-unit root
    pub source_file: bool,
    /// physical lines of the text
    pub text_lines: usize,
    /// lines that are neither blank nor fully inside a comment
    pub lines: usize,
    /// inclusion directives in source order, duplicates preserved
    pub parsed_includes: Vec<IncludeInfo>,
    /// registry indices this file directly pulls in (duplicate-free)
    pub includes: Vec<usize>,
    /// registry indices that directly pull this file in (duplicate-free)
    pub included_by: Vec<usize>,
    /// transitive closure of `includes` (duplicate-free)
    pub includes_indirect: Vec<usize>,
    /// transitive closure of `included_by` (duplicate-free)
    pub included_by_indirect: Vec<usize>,
    /// the members of `included_by_indirect` that are translation-unit roots
    pub included_by_indirect_sources: Vec<usize>,
    /// own code lines plus those of every transitively pulled-in file, once each
    pub lines_with_all_includes: usize,
    /// `lines_with_all_includes` weighted by the number of consuming roots
    pub lines_contributes_total: usize,
    /// own code lines weighted by the number of consuming roots
    pub lines_contributes_self: usize,
}

/// The scanner has not run on this record yet: counts and directives are at
/// their initial values.
pub open spec fn parse_clear(fi: FileInfo) -> bool {
    &&& fi.text_lines == 0
    &&& fi.lines == 0
    &&& fi.parsed_includes@ =~= Seq::<IncludeInfo>::empty()
}

/// The link resolver has not run on this record yet: no direct edges.
pub open spec fn link_clear(fi: FileInfo) -> bool {
    &&& fi.includes@ =~= Seq::<usize>::empty()
    &&& fi.included_by@ =~= Seq::<usize>::empty()
}

/// Closure and cost fields are still at their initial values; after a cycle
/// is detected they stay this way, which is what "unset" means here.
pub open spec fn closure_clear(fi: FileInfo) -> bool {
    &&& fi.includes_indirect@ =~= Seq::<usize>::empty()
    &&& fi.included_by_indirect@ =~= Seq::<usize>::empty()
    &&& fi.included_by_indirect_sources@ =~= Seq::<usize>::empty()
    &&& fi.lines_with_all_includes == 0
    &&& fi.lines_contributes_total == 0
    &&& fi.lines_contributes_self == 0
}

/// A record as it stands before any pipeline phase has touched it.
pub open spec fn record_clear(fi: FileInfo) -> bool {
    parse_clear(fi) && link_clear(fi) && closure_clear(fi)
}

/// No two records share a name: the registry is a flat namespace keyed by
/// unique names.
pub open spec fn names_unique(data: Seq<FileInfo>) -> bool {
    forall|i: int, j: int|
        0 <= i < data.len() && 0 <= j < data.len() && i != j ==> data[i].name@ != data[j].name@
}

impl FileInfo {
    /// The name as a report shows it: a stub's name stands in angle
    /// brackets.
    pub fn display_name(&self) -> (r: String)
        ensures
            self.stab_file ==> r@ == seq!['<'] + self.name@ + seq!['>'],
            !self.stab_file ==> r@ == self.name@,
    {
        if self.stab_file {
            proof {
                reveal_strlit("<");
                reveal_strlit(">");
            }
            let mut r = String::from_str("<");
            r.append(self.name.as_str());
            r.append(">");
            proof {
                assert(r@ =~= seq!['<'] + self.name@ + seq!['>']);
            }
            r
        } else {
            self.name.clone()
        }
    }

    /// A fresh record with the given identity and contents; every derived
    /// field starts at its initial value.
    pub fn new(name: String, data: String, stab: bool, source_file: bool) -> (r: Self)
        ensures
            r.name == name,
            r.data == data,
            r.stab_file == stab,
            r.source_file == source_file,
            record_clear(r),
    {
        Self {
            name,
            data,
            stab_file: stab,
            source_file,
            text_lines: 0,
            lines: 0,
            parsed_includes: vec![],
            includes: vec![],
            included_by: vec![],
            includes_indirect: vec![],
            included_by_indirect: vec![],
            included_by_indirect_sources: vec![],
            lines_with_all_includes: 0,
            lines_contributes_total: 0,
            lines_contributes_self: 0,
        }
    }
}

} // verus!
