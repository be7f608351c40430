use std::sync::Arc;

use bscc::ast::FunctionDetail;
use bscc::cli::{explain_report, languages_report, window_days};
use bscc::registry::{LanguageEntry, Registry, Tier};
use bscc::tokenizer::{LanguageConfig, RegexAnalyzer};

fn detail(start: u32, end: u32, cc: u32) -> FunctionDetail {
    FunctionDetail { start_line: start, end_line: end, cyclomatic: cc, lines: end - start + 1 }
}

#[test]
fn explain_prints_each_function_and_the_sums() {
    let ds = vec![detail(4, 6, 1), detail(8, 18, 5)];
    let out = explain_report("lib.rs", "Rust", &ds);
    let expected = format!(
        "lib.rs  (Rust)\n{d}\n start     end    cc  lines\n     4       6     1  3\n     8      18     5  11\n{d}\nfunctions=2  cyclomatic_total=6  cyclomatic_max=5\n",
        d = "-".repeat(50)
    );
    assert_eq!(out, expected);
}

#[test]
fn explain_without_functions_says_so() {
    let out = explain_report("a.py", "Python", &vec![]);
    assert!(out.ends_with("lines\n(no functions detected)\n"));
}

#[test]
fn window_flag_wins_over_config() {
    assert_eq!(window_days(30, 60), 30);
    assert_eq!(window_days(90, 60), 60);
}

fn entry(name: &str, exts: &[&str], tier: Tier) -> LanguageEntry {
    let cfg = LanguageConfig {
        name: name.into(),
        extensions: exts.iter().map(|e| e.to_string()).collect(),
        filenames: vec![],
        line_comments: vec!["#".into()],
        block_comments: vec![],
        strings: vec![],
    };
    LanguageEntry {
        name: name.into(),
        extensions: exts.iter().map(|e| e.to_string()).collect(),
        filenames: vec![],
        tier,
        analyzer: Arc::new(RegexAnalyzer::new(cfg)),
    }
}

#[test]
fn languages_listing_is_sorted_by_name() {
    let mut r = Registry::new();
    r.register(entry("Python", &["py", "pyi"], Tier::TreeSitter));
    r.register(entry("Bash", &["sh"], Tier::Regex));
    let out = languages_report(&r);
    let lines: Vec<&str> = out.lines().collect();
    assert_eq!(lines[0], format!("{:<20} {:<12} Extensions", "Language", "Tier"));
    assert_eq!(lines[1], "-".repeat(60));
    assert_eq!(lines[2], format!("{:<20} {:<12} {}", "Bash", "regex", "sh"));
    assert_eq!(lines[3], format!("{:<20} {:<12} {}", "Python", "tree-sitter", "py, pyi"));
    assert_eq!(lines.len(), 4);
}
