//! End-to-end and per-stage behaviour of the rewriting pipeline.

use jsi::compile_jsi_to_js;
use jsi::hoist::process_hoist;
use jsi::minify::minify_output;
use jsi::normalize::{param_type_table, parse_and_check};
use jsi::subst::convert_typeof_null;

#[test]
fn normalizer_rewrites_var_declaration() {
    let lines = parse_and_check("var a = 1; // comment\nlet b = 2;").unwrap();
    assert_eq!(lines, vec!["let a = 1; // comment".to_string(), "let b = 2;".to_string()]);
}

#[test]
fn normalizer_trims_lines() {
    let lines = parse_and_check("   var x = 1;   \n\t let y = 2; ").unwrap();
    assert_eq!(lines, vec!["let x = 1;".to_string(), "let y = 2;".to_string()]);
}

#[test]
fn normalizer_leaves_longer_identifiers_alone() {
    let lines = parse_and_check("variance = 2;").unwrap();
    assert_eq!(lines, vec!["variance = 2;".to_string()]);
    let lines = parse_and_check("var variance = 1;").unwrap();
    assert_eq!(lines, vec!["let variance = 1;".to_string()]);
}

#[test]
fn normalizer_trims_unicode_whitespace() {
    let lines = parse_and_check("\u{a0}x = 1;\u{a0}\n\u{2003}y = 2;\u{85}").unwrap();
    assert_eq!(lines, vec!["x = 1;".to_string(), "y = 2;".to_string()]);
    for l in &lines {
        assert_eq!(l, l.trim());
    }
}

#[test]
fn normalizer_treats_non_ascii_as_word_characters() {
    let lines = parse_and_check("\u{e9}var = 1;").unwrap();
    assert_eq!(lines, vec!["\u{e9}var = 1;".to_string()]);
    let lines = parse_and_check("x =\u{a0}var\u{a0}2;").unwrap();
    assert_eq!(lines, vec!["x =\u{a0}let\u{a0}2;".to_string()]);
}

#[test]
fn normalizer_empty_input_has_no_lines() {
    let lines = parse_and_check("").unwrap();
    assert_eq!(lines.len(), 0);
}

#[test]
fn hoist_moves_marked_line_to_front() {
    let out = compile_jsi_to_js("let y = 2;\nhoist let x = 1;").unwrap();
    assert_eq!(out, "let x = 1;let y = 2;");
}

#[test]
fn hoist_strips_marker_everywhere_in_the_line() {
    let lines = vec!["hoisted = 1".to_string(), "let a = 2;".to_string()];
    let (hoisted, non_hoisted) = process_hoist(&lines);
    assert_eq!(hoisted, vec!["ed = 1".to_string()]);
    assert_eq!(non_hoisted, vec!["let a = 2;".to_string()]);
}

#[test]
fn hoist_membership_uses_the_trimmed_form() {
    let lines = vec!["  hoist x".to_string(), "  y  ".to_string()];
    let (hoisted, non_hoisted) = process_hoist(&lines);
    assert_eq!(hoisted, vec!["x".to_string()]);
    assert_eq!(non_hoisted, vec!["y".to_string()]);
}

#[test]
fn hoist_keeps_relative_order_within_groups() {
    let lines = vec![
        "hoist let a = 1;".to_string(),
        "let m = 0;".to_string(),
        "hoist let b = 2;".to_string(),
        "let n = 9;".to_string(),
    ];
    let (hoisted, non_hoisted) = process_hoist(&lines);
    assert_eq!(hoisted, vec!["let a = 1;".to_string(), "let b = 2;".to_string()]);
    assert_eq!(non_hoisted, vec!["let m = 0;".to_string(), "let n = 9;".to_string()]);
}

#[test]
fn substitution_rewrites_typeof_null() {
    assert_eq!(convert_typeof_null("typeof null === \"null\""), "\"null\" === \"null\"");
}

#[test]
fn substitution_ignores_context() {
    assert_eq!(convert_typeof_null("x = \"typeof null\""), "x = \"\"null\"\"");
}

#[test]
fn substitution_without_phrase_is_noop() {
    assert_eq!(convert_typeof_null("typeof x === null"), "typeof x === null");
}

#[test]
fn minifier_removes_comment_and_newline() {
    let out = compile_jsi_to_js("var a = 1; // comment\nlet b = 2;").unwrap();
    assert_eq!(out, "let a = 1; let b = 2;");
}

#[test]
fn minifier_preserves_string_contents() {
    assert_eq!(minify_output("\"a // b\" // c"), "\"a // b\" ");
    assert_eq!(minify_output("'x /* y */'"), "'x /* y */'");
}

#[test]
fn minifier_drops_block_comment() {
    assert_eq!(minify_output("let a = 1; /* gone */let b = 2;"), "let a = 1; let b = 2;");
}

#[test]
fn minifier_accepts_unterminated_block_comment() {
    assert_eq!(minify_output("let a = 1; /* oops\nnever closes"), "let a = 1; ");
    let out = compile_jsi_to_js("let a = 1; /* oops\nnever closes").unwrap();
    assert_eq!(out, "let a = 1; ");
}

#[test]
fn minifier_matches_keyword_prefixes_of_identifiers() {
    assert_eq!(minify_output("lettuce"), "lettuce");
    assert_eq!(minify_output("const x\nvar y"), "const xvar y");
}

#[test]
fn minifier_is_idempotent_on_minified_text() {
    let once = minify_output("let a = 1; // c\nlet b = 2;");
    assert_eq!(once, "let a = 1; let b = 2;");
    let twice = minify_output(&once);
    assert_eq!(twice, once);
}

#[test]
fn compiler_empty_input_gives_empty_output() {
    assert_eq!(compile_jsi_to_js("").unwrap(), "");
}

#[test]
fn table_records_arrow_function_parameter_types() {
    let t = param_type_table("function f = (a: Int, b: Str) => a");
    assert_eq!(t, vec![
        ("a".to_string(), "Int".to_string()),
        ("b".to_string(), "Str".to_string()),
    ]);
}

#[test]
fn table_last_write_wins() {
    let t = param_type_table(
        "function f = (a: Int) => a\nfunction g = (a: Str, b: Num) => b",
    );
    assert_eq!(t, vec![
        ("a".to_string(), "Str".to_string()),
        ("b".to_string(), "Num".to_string()),
    ]);
}

#[test]
fn table_skips_malformed_parameters() {
    let t = param_type_table("function f = (a: Int: Str, b, c: T) => c");
    assert_eq!(t, vec![("c".to_string(), "T".to_string())]);
}

#[test]
fn table_ignores_lines_without_both_markers() {
    let t = param_type_table("let f = (a: Int) => a\nfunction g(b: Str) { }");
    assert_eq!(t.len(), 0);
}
