use bscc::tokenizer::{count, default_strings, LanguageConfig};

fn cfg_c_like() -> LanguageConfig {
    LanguageConfig {
        name: "test".into(),
        extensions: vec!["x".into()],
        filenames: vec![],
        line_comments: vec!["//".into()],
        block_comments: vec![["/*".into(), "*/".into()]],
        strings: vec![["\"".into(), "\"".into()]],
    }
}

#[test]
fn empty_file() {
    let c = count(&cfg_c_like(), b"");
    assert_eq!(c.lines, 0);
}

#[test]
fn blanks_only() {
    let c = count(&cfg_c_like(), b"\n\n\n");
    assert_eq!(c.lines, 3);
    assert_eq!(c.blanks, 3);
    assert_eq!(c.code, 0);
    assert_eq!(c.comments, 0);
}

#[test]
fn no_trailing_newline_counts_line() {
    let c = count(&cfg_c_like(), b"int x = 1;");
    assert_eq!(c.lines, 1);
    assert_eq!(c.code, 1);
}

#[test]
fn line_comment_classifies_line_as_comment() {
    let c = count(&cfg_c_like(), b"// hi\n");
    assert_eq!(c.lines, 1);
    assert_eq!(c.comments, 1);
    assert_eq!(c.code, 0);
}

#[test]
fn code_then_line_comment_is_code() {
    let c = count(&cfg_c_like(), b"int x; // trail\n");
    assert_eq!(c.code, 1);
    assert_eq!(c.comments, 0);
}

#[test]
fn block_comment_spans_lines() {
    let c = count(&cfg_c_like(), b"/* a\n b */\n");
    assert_eq!(c.lines, 2);
    assert_eq!(c.comments, 2);
    assert_eq!(c.code, 0);
}

#[test]
fn middle_line_of_block_comment_is_comment_not_blank() {
    // Three-line block comment: opening on line 1, body on line 2,
    // closing on line 3. All three lines should count as comment.
    let c = count(&cfg_c_like(), b"/*\n a\n */\n");
    assert_eq!(c.lines, 3);
    assert_eq!(c.comments, 3);
    assert_eq!(c.blanks, 0);
}

#[test]
fn string_with_comment_marker_inside_is_code() {
    let c = count(&cfg_c_like(), b"\"// not a comment\"\n");
    assert_eq!(c.code, 1);
    assert_eq!(c.comments, 0);
}

#[test]
fn escaped_quote_in_string() {
    let c = count(&cfg_c_like(), b"\"a\\\"b\";\n");
    assert_eq!(c.code, 1);
}

// ---- further cases ----

#[test]
fn counts_partition_every_line() {
    let src = b"int a; /* x\n\n y */ int b;\n\n// c\n  \"s\" // d\nz";
    let c = count(&cfg_c_like(), src);
    assert_eq!(c.lines, 7);
    assert_eq!(c.code + c.comments + c.blanks, c.lines);
    assert_eq!(c.code, 4);
    assert_eq!(c.comments, 1);
    assert_eq!(c.blanks, 2);
}

#[test]
fn whitespace_inside_block_comment_is_blank() {
    // The middle line only holds whitespace inside the comment.
    let c = count(&cfg_c_like(), b"/* a\n   \n*/\n");
    assert_eq!(c.lines, 3);
    assert_eq!(c.comments, 2);
    assert_eq!(c.blanks, 1);
}

#[test]
fn escaped_newline_in_string_still_ends_a_line() {
    // A newline ends the line whatever the scan is in, even right after a
    // backslash inside a string.
    let c = count(&cfg_c_like(), b"\"a\\\nb\"\n");
    assert_eq!(c.lines, 2);
    assert_eq!(c.code, 2);
}

#[test]
fn block_comment_markers_win_over_line_markers() {
    let cfg = LanguageConfig {
        name: "t".into(),
        extensions: vec![],
        filenames: vec![],
        line_comments: vec!["/".into()],
        block_comments: vec![["/*".into(), "*/".into()]],
        strings: vec![],
    };
    let c = count(&cfg, b"/* x */ y\n/ z\n");
    assert_eq!(c.code, 1);
    assert_eq!(c.comments, 1);
}

#[test]
fn default_strings_is_double_quote() {
    let s = default_strings();
    assert_eq!(s.len(), 1);
    assert_eq!(s[0][0], "\"");
    assert_eq!(s[0][1], "\"");
}

#[test]
fn markers_terminate_detects_empty_pairs() {
    let mut cfg = cfg_c_like();
    assert!(cfg.markers_terminate());
    cfg.strings.push(["".into(), "".into()]);
    assert!(!cfg.markers_terminate());
}
