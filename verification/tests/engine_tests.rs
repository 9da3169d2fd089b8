use inclusion_graph::pipeline::process_data;
use inclusion_graph::record::FileInfo;
use inclusion_graph::sort::{custom_sort, SortMode};

fn dir(target: &str) -> String {
    // builds a `#<keyword> "<target>"` line without spelling the keyword out
    format!("#inclu{} \"{}\"\n", "de", target)
}

fn file(name: &str, body: &str, source: bool) -> FileInfo {
    FileInfo::new(name.to_string(), body.to_string(), false, source)
}

fn index_of(data: &[FileInfo], name: &str) -> usize {
    data.iter().position(|f| f.name == name).unwrap()
}

#[test]
fn chain_without_cycle_has_full_closures() {
    let mut data = vec![
        file("a.cpp", &(dir("b.h") + "int main;\n"), true),
        file("b.h", &(dir("c.h") + "int b;\n"), false),
        file("c.h", "int c;\n", false),
    ];
    let r = process_data(&mut data);
    assert!(r.is_ok());
    let a = index_of(&data, "a.cpp");
    let b = index_of(&data, "b.h");
    let c = index_of(&data, "c.h");
    let mut fwd_a = data[a].includes_indirect.clone();
    fwd_a.sort();
    assert_eq!(fwd_a, vec![b, c]);
    let mut back_c = data[c].included_by_indirect.clone();
    back_c.sort();
    let mut expect = vec![a, b];
    expect.sort();
    assert_eq!(back_c, expect);
}

#[test]
fn stub_synthesized_for_missing_target() {
    let mut data = vec![file("a.cpp", &dir("missing.h"), true)];
    let r = process_data(&mut data);
    assert!(r.is_ok());
    assert_eq!(data.len(), 2);
    let m = index_of(&data, "missing.h");
    assert!(data[m].stab_file);
    assert!(!data[m].source_file);
    assert_eq!(data[m].lines, 0);
    assert_eq!(data[m].text_lines, 0);
}

#[test]
fn stub_synthesis_is_idempotent_across_referers() {
    let mut data = vec![
        file("a.cpp", &dir("missing.h"), true),
        file("b.cpp", &dir("missing.h"), true),
    ];
    let r = process_data(&mut data);
    assert!(r.is_ok());
    assert_eq!(data.len(), 3);
    assert_eq!(data.iter().filter(|f| f.name == "missing.h").count(), 1);
}

#[test]
fn cycle_reports_witness_and_leaves_closures_unset() {
    let mut data = vec![
        file("a.h", &dir("b.h"), false),
        file("b.h", &dir("a.h"), false),
    ];
    let r = process_data(&mut data);
    let (w0, w1) = r.unwrap_err();
    assert!(w0 <= 1 && w1 <= 1);
    for f in &data {
        assert_eq!(f.includes_indirect.len(), 0);
        assert_eq!(f.included_by_indirect.len(), 0);
        assert_eq!(f.lines_with_all_includes, 0);
        assert_eq!(f.lines_contributes_self, 0);
        assert_eq!(f.lines_contributes_total, 0);
    }
}

#[test]
fn self_reference_is_a_cycle() {
    let mut data = vec![file("a.h", &dir("a.h"), false)];
    let r = process_data(&mut data);
    assert_eq!(r.unwrap_err(), (0, 0));
}

#[test]
fn fan_in_weights_header_by_distinct_roots() {
    let mut data = vec![
        file("h.h", "int h1;\nint h2;\n", false),
        file("s1.cpp", &dir("h.h"), true),
        file("s2.cpp", &dir("h.h"), true),
        file("h2.h", &dir("h.h"), false),
        file("s3.cpp", &dir("h2.h"), true),
    ];
    let r = process_data(&mut data);
    assert!(r.is_ok());
    let h = index_of(&data, "h.h");
    let mut roots = data[h].included_by_indirect_sources.clone();
    roots.sort();
    let mut expect = vec![
        index_of(&data, "s1.cpp"),
        index_of(&data, "s2.cpp"),
        index_of(&data, "s3.cpp"),
    ];
    expect.sort();
    assert_eq!(roots, expect);
    assert_eq!(data[h].lines, 2);
    assert_eq!(data[h].lines_contributes_self, 2 * 3);
    assert_eq!(data[h].lines_contributes_total, data[h].lines_with_all_includes * 3);
}

#[test]
fn combined_cost_counts_shared_header_once() {
    let mut data = vec![
        file("s.cpp", &(dir("a.h") + &dir("b.h") + "int s;\n"), true),
        file("a.h", &(dir("c.h") + "int a;\n"), false),
        file("b.h", &(dir("c.h") + "int b;\nint b2;\n"), false),
        file("c.h", "int c;\nint c2;\nint c3;\n", false),
    ];
    let r = process_data(&mut data);
    assert!(r.is_ok());
    let s = index_of(&data, "s.cpp");
    let a = index_of(&data, "a.h");
    let b = index_of(&data, "b.h");
    let c = index_of(&data, "c.h");
    assert_eq!(
        data[s].lines_with_all_includes,
        data[s].lines + data[a].lines + data[b].lines + data[c].lines
    );
    // s.cpp holds three code lines: two directive lines and one declaration
    assert_eq!(data[s].lines, 3);
    assert_eq!(data[s].lines_with_all_includes, 3 + 2 + 3 + 3);
    // a source file is compiled once: weight one
    assert_eq!(data[s].lines_contributes_self, data[s].lines);
    assert_eq!(data[s].lines_contributes_total, data[s].lines_with_all_includes);
}

#[test]
fn direct_edges_are_deduplicated() {
    let mut data = vec![
        file("a.cpp", &(dir("b.h") + &dir("b.h")), true),
        file("b.h", "int b;\n", false),
    ];
    let r = process_data(&mut data);
    assert!(r.is_ok());
    let a = index_of(&data, "a.cpp");
    let b = index_of(&data, "b.h");
    assert_eq!(data[a].parsed_includes.len(), 2);
    assert_eq!(data[a].includes, vec![b]);
    assert_eq!(data[b].included_by, vec![a]);
}

#[test]
fn sort_by_name_groups_stubs_and_sources_last() {
    let mut data = vec![
        file("z.cpp", &dir("b.h"), true),
        file("b.h", &dir("gone.h"), false),
        file("a.h", "int a;\n", false),
    ];
    let r = process_data(&mut data);
    assert!(r.is_ok());
    let order = custom_sort(&data, SortMode::FileName, false);
    let names: Vec<&str> = order.iter().map(|i| data[*i].name.as_str()).collect();
    assert_eq!(names, vec!["a.h", "b.h", "z.cpp", "gone.h"]);
}

#[test]
fn sort_by_code_lines_and_reversed() {
    let mut data = vec![
        file("a.h", "int a;\n", false),
        file("b.h", "int b;\nint b2;\n", false),
        file("c.h", "int c;\nint c2;\nint c3;\n", false),
    ];
    let r = process_data(&mut data);
    assert!(r.is_ok());
    let asc = custom_sort(&data, SortMode::Lines, false);
    let names: Vec<&str> = asc.iter().map(|i| data[*i].name.as_str()).collect();
    assert_eq!(names, vec!["a.h", "b.h", "c.h"]);
    let desc = custom_sort(&data, SortMode::Lines, true);
    let names: Vec<&str> = desc.iter().map(|i| data[*i].name.as_str()).collect();
    assert_eq!(names, vec!["c.h", "b.h", "a.h"]);
}

#[test]
fn sort_ties_fall_back_to_name_order() {
    let mut data = vec![
        file("b.h", "int x;\n", false),
        file("a.h", "int y;\n", false),
    ];
    let r = process_data(&mut data);
    assert!(r.is_ok());
    let order = custom_sort(&data, SortMode::Lines, false);
    let names: Vec<&str> = order.iter().map(|i| data[*i].name.as_str()).collect();
    assert_eq!(names, vec!["a.h", "b.h"]);
}

#[test]
fn empty_collection_processes_cleanly() {
    let mut data: Vec<FileInfo> = vec![];
    let r = process_data(&mut data);
    assert!(r.is_ok());
    assert_eq!(data.len(), 0);
}

#[test]
fn header_pulled_in_by_nothing_contributes_nothing() {
    let mut data = vec![file("lone.h", "int a;\nint b;\n", false)];
    let r = process_data(&mut data);
    assert!(r.is_ok());
    assert_eq!(data[0].lines_with_all_includes, 2);
    assert_eq!(data[0].lines_contributes_self, 0);
    assert_eq!(data[0].lines_contributes_total, 0);
}

#[test]
fn stub_names_display_in_angle_brackets() {
    let mut data = vec![file("a.cpp", &dir("gone.h"), true)];
    let r = process_data(&mut data);
    assert!(r.is_ok());
    let g = index_of(&data, "gone.h");
    assert_eq!(data[g].display_name(), "<gone.h>");
    assert_eq!(data[0].display_name(), "a.cpp");
}

#[test]
fn sort_by_name_reversed_descends_within_groups() {
    let mut data = vec![
        file("z.cpp", &dir("b.h"), true),
        file("b.h", &dir("gone.h"), false),
        file("a.h", "int a;\n", false),
        file("y.cpp", "int y;\n", true),
    ];
    let r = process_data(&mut data);
    assert!(r.is_ok());
    let order = custom_sort(&data, SortMode::FileName, true);
    let names: Vec<&str> = order.iter().map(|i| data[*i].name.as_str()).collect();
    // headers descend by name, then sources descend, then stubs
    assert_eq!(names, vec!["b.h", "a.h", "z.cpp", "y.cpp", "gone.h"]);
}
