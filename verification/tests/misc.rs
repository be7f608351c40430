use bscc::lines::classify_lines;
use bscc::ast::FunctionDetail;
use bscc::config::{Config, GitConfig, Thresholds};
use bscc::fixture::{add, build_index, classify, sum_evens};
use bscc::fmt::{decimal_string, families};
use bscc::lsp::{code_lens_for, diagnostics, Thresholds as LspThresholds};
use bscc::text::{char_count, push_pad_left, push_pad_right};

#[test]
fn config_defaults() {
    let c = Config::default();
    assert_eq!(c.thresholds.cyclomatic_max, 10);
    assert_eq!(c.thresholds.longest_function_lines, 100);
    assert_eq!(c.git.window_days, 90);
    assert_eq!(GitConfig::default().window_days, 90);
    assert_eq!(Thresholds::default().cyclomatic_max, 10);
}

#[test]
fn fixture_functions() {
    assert_eq!(add(2, 3), 5);
    assert_eq!(classify(-1), "negative");
    assert_eq!(classify(0), "zero");
    assert_eq!(classify(5), "small positive");
    assert_eq!(classify(10), "large positive");
    assert_eq!(sum_evens(&[1, 2, 3, 4]), 6);
    assert_eq!(
        build_index(&["a", "b"]),
        vec![("a".to_string(), 0), ("b".to_string(), 1)]
    );
}

#[test]
fn decimal_text() {
    assert_eq!(decimal_string(0), "0");
    assert_eq!(decimal_string(1234567), "1234567");
    assert_eq!(decimal_string(u64::MAX), u64::MAX.to_string());
}

#[test]
fn families_are_the_three_pairs() {
    let f = families();
    assert_eq!(f.len(), 3);
    assert_eq!(f[0].display, "TS + TSX");
    assert_eq!(f[2].members, vec!["C", "C++"]);
}

#[test]
fn padding_counts_characters() {
    let mut s = String::new();
    push_pad_right(&mut s, "\u{e9}t\u{e9}", 5);
    push_pad_left(&mut s, "ab", 4);
    push_pad_left(&mut s, "toolong", 3);
    assert_eq!(s, "\u{e9}t\u{e9}    abtoolong");
    assert_eq!(char_count("\u{2500}\u{2500}"), 2);
}

fn d(start: u32, end: u32, cc: u32) -> FunctionDetail {
    FunctionDetail { start_line: start, end_line: end, cyclomatic: cc, lines: end - start + 1 }
}

#[test]
fn lsp_flags_functions_over_thresholds() {
    let t = LspThresholds { cyclomatic_max: 3, longest_function_lines: 10 };
    let ds = vec![d(1, 5, 2), d(7, 30, 2), d(31, 33, 9), d(40, 60, 12)];
    let out = diagnostics(&ds, &t);
    assert_eq!(out.len(), 3);
    assert_eq!(out[0].start_line, 6);
    assert_eq!(out[0].end_line, 29);
    assert_eq!(out[0].message, "24 lines > threshold 10");
    assert_eq!(out[1].message, "CC 9 > threshold 3");
    assert_eq!(out[2].message, "CC 12 > 3 and length 21 > 10");
}

#[test]
fn lsp_code_lens_title() {
    let (line, title) = code_lens_for(&d(8, 18, 5));
    assert_eq!(line, 7);
    assert_eq!(title, "bscc: CC=5 \u{b7} 11 lines");
}

#[test]
fn lines_are_classified_by_comment_ranges() {
    let src = b"a\n// c\n\nb /* x */\n";
    let mut ranges = vec![(10usize, 17usize), (2usize, 6usize)];
    let lc = classify_lines(src, &mut ranges);
    assert_eq!(lc.lines, 4);
    assert_eq!(lc.code, 2);
    assert_eq!(lc.comments, 1);
    assert_eq!(lc.blanks, 1);
}

#[test]
fn fmt_int_below_thousand_is_plain() {
    assert_eq!(bscc::fmt::fmt_int(0), "0");
    assert_eq!(bscc::fmt::fmt_int(7), "7");
    assert_eq!(bscc::fmt::fmt_int(105), "105");
    assert_eq!(bscc::fmt::fmt_int(999), "999");
}

#[test]
fn fmt_int_keeps_every_digit_of_larger_numbers() {
    let s = bscc::fmt::fmt_int(4433);
    let digits: String = s.chars().filter(|c| c.is_ascii_digit()).collect();
    assert_eq!(digits, "4433");
    assert!(s.starts_with('4'));
    assert!(s.ends_with("433"));
    let usd = bscc::fmt::fmt_usd(1_234_567);
    assert!(usd.starts_with('$'));
    let digits: String = usd.chars().filter(|c| c.is_ascii_digit()).collect();
    assert_eq!(digits, "1234567");
}
