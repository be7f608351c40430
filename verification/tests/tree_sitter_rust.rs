use bscc::ast::contains_todo;
use std::sync::Arc;

use bscc::ast::TreeSitterAnalyzer;
use bscc::csv::CsvExporter;
use bscc::exporter::Exporter;
use bscc::html::HtmlExporter;
use bscc::metrics::FileMetrics;
use bscc::registry::{Analyzer, LanguageEntry, Registry, Tier};
use bscc::report::Report;
use bscc::sarif::{SarifExporter, SarifThresholds};
use bscc::tokenizer::{LanguageConfig, RegexAnalyzer};

const FIXTURE: &str = r#"// A Rust fixture with varying complexity per function.
use std::collections::HashMap;

pub fn add(a: i32, b: i32) -> i32 {
    a + b
}

pub fn classify(n: i32) -> &'static str {
    if n < 0 {
        "negative"
    } else if n == 0 {
        "zero"
    } else if n > 0 && n < 10 {
        "small positive"
    } else {
        "large positive"
    }
}

pub fn sum_evens(items: &[i32]) -> i32 {
    let mut total = 0;
    for &x in items {
        if x % 2 == 0 {
            total += x;
        }
    }
    total
}

// TODO: replace with something less silly
pub fn build_index(words: &[&str]) -> HashMap<String, usize> {
    let mut map = HashMap::new();
    for (i, w) in words.iter().enumerate() {
        map.insert((*w).to_string(), i);
    }
    map
}
"#;

const QUERY: &str = r#"
(function_item) @function
(if_expression) @branch
(for_expression) @branch
(while_expression) @branch
(loop_expression) @branch
(match_arm) @branch
(binary_expression operator: "&&") @branch
(binary_expression operator: "||") @branch
(use_declaration) @import
(line_comment) @comment
(block_comment) @comment
"#;

fn rust_analyzer() -> TreeSitterAnalyzer {
    let language: tree_sitter::Language = tree_sitter_rust::LANGUAGE.into();
    match TreeSitterAnalyzer::new("Rust".to_string(), language, QUERY) {
        Ok(a) => a,
        Err(_) => panic!("the Rust metrics query must compile"),
    }
}

fn lsl_config() -> LanguageConfig {
    LanguageConfig {
        name: "LSL".into(),
        extensions: vec!["lsl".into()],
        filenames: vec![],
        line_comments: vec!["//".into()],
        block_comments: vec![["/*".into(), "*/".into()]],
        strings: vec![["\"".into(), "\"".into()]],
    }
}

fn build_registry() -> Registry {
    let mut r = Registry::new();
    r.register(LanguageEntry {
        name: "LSL".into(),
        extensions: vec!["lsl".into()],
        filenames: vec![],
        tier: Tier::Regex,
        analyzer: Arc::new(RegexAnalyzer::new(lsl_config())),
    });
    r.register(LanguageEntry {
        name: "Rust".into(),
        extensions: vec!["rs".into()],
        filenames: vec![],
        tier: Tier::TreeSitter,
        analyzer: Arc::new(rust_analyzer()),
    });
    r
}

fn fixture_metrics() -> FileMetrics {
    rust_analyzer().analyze("fixtures/rust/lib.rs", FIXTURE.as_bytes())
}

fn report() -> Report {
    let mut r = Report::new();
    r.push(fixture_metrics());
    r
}

#[test]
fn rust_file_gets_tree_sitter_metrics() {
    let f = fixture_metrics();
    assert_eq!(f.language, "Rust");
    assert_eq!(f.functions, Some(4), "functions count");
    assert_eq!(f.cyclomatic_max, Some(5), "cyclomatic_max");
    assert_eq!(f.cyclomatic_total, Some(11), "cyclomatic_total");
    assert_eq!(f.imports, Some(1), "imports");
    assert_eq!(f.todo_comments, Some(1), "todo_comments");
    assert!(f.longest_function_lines.is_some_and(|n| n > 0));
    assert_eq!(f.lines, f.code + f.comments + f.blanks);
}

#[test]
fn fixture_line_counts() {
    let f = fixture_metrics();
    assert_eq!(f.lines, 37);
    assert_eq!(f.comments, 2);
    assert_eq!(f.blanks, 4);
    assert_eq!(f.code, 31);
    assert_eq!(f.longest_function_lines, Some(11));
    assert_eq!(f.bytes, FIXTURE.len() as u64);
}

#[test]
fn rust_registered_at_tree_sitter_tier() {
    let registry = build_registry();
    let entry = registry.lookup_by_extension("rs").expect("rust registered");
    assert_eq!(entry.name, "Rust");
    assert_eq!(entry.tier, Tier::TreeSitter);
}

#[test]
fn explain_returns_per_function_breakdown_for_tree_sitter_languages() {
    let registry = build_registry();
    let entry = registry.lookup_by_path("fixtures/rust/lib.rs").expect("rust registered");
    let details = entry
        .analyzer
        .explain("fixtures/rust/lib.rs", FIXTURE.as_bytes())
        .expect("tree-sitter tier supports explain");
    assert_eq!(details.len(), 4, "fixture has 4 functions");
    let max_cc = details.iter().map(|d| d.cyclomatic).max().unwrap();
    assert_eq!(max_cc, 5, "classify() has CC 5");
    let ccs: Vec<u32> = details.iter().map(|d| d.cyclomatic).collect();
    assert_eq!(ccs, vec![1, 5, 3, 2]);
    assert_eq!(details[1].start_line, 8);
    assert_eq!(details[1].end_line, 18);
    assert_eq!(details[1].lines, 11);
}

#[test]
fn explain_returns_none_for_regex_tier_languages() {
    let registry = build_registry();
    let entry = registry.lookup_by_path("fixtures/sample/hello.lsl").expect("lsl registered");
    let source = b"// hello\ndefault { state_entry() { llSay(0, \"hi\"); } }\n";
    assert!(entry.analyzer.explain("fixtures/sample/hello.lsl", source).is_none());
}

#[test]
fn csv_has_header_and_one_row_per_file() {
    let mut text = String::new();
    CsvExporter.write(&report(), &mut text);
    let lines: Vec<&str> = text.lines().collect();
    assert!(lines.first().is_some_and(|h| h.starts_with("path,language,")));
    assert_eq!(lines.len(), 2, "header + one data row, got {lines:?}");
    let data = lines[1];
    assert!(data.contains("Rust"), "row references the language");
    assert!(
        data.contains(",11,5,,,"),
        "tree-sitter fields fill, optional fields stay empty"
    );
}

#[test]
fn sarif_has_no_results_when_thresholds_not_exceeded() {
    let results = SarifExporter::default().results(&report());
    assert!(results.is_empty());
}

#[test]
fn sarif_emits_results_when_thresholds_exceeded() {
    let exp = SarifExporter {
        thresholds: SarifThresholds {
            cyclomatic_max: 2,
            longest_function_lines: 5,
        },
    };
    let results = exp.results(&report());
    let rules: Vec<&str> = results.iter().map(|r| r.rule_id).collect();
    assert!(rules.contains(&"complexity/cyclomatic"));
    assert!(rules.contains(&"size/longest-function"));
    assert!(results.iter().all(|r| r.locations[0].uri.contains("lib.rs")));
}

#[test]
fn html_exporter_emits_self_contained_document() {
    let mut text = String::new();
    HtmlExporter.write(&report(), &mut text);
    assert!(!text.contains("<link"), "no external CSS");
    assert!(!text.contains("<script"), "no external JS");
    assert!(text.starts_with("<!doctype html>"));
    assert!(text.contains("<style>"));
    assert!(text.contains("bscc report"));
    assert!(text.contains("<h2>Languages</h2>"));
    assert!(text.contains("<h2>Files</h2>"));
    assert!(text.contains(">Rust<"));
    assert!(text.contains("lib.rs"));
    assert!(text.ends_with("</body></html>"));
}

#[test]
fn csv_lines_are_the_header_and_one_row_per_file() {
    let mut r = report();
    let mut other = FileMetrics::new("a,b.txt".to_string(), "Text \"plain\"".to_string(), 3);
    other.lines = 1;
    other.code = 1;
    r.push(other);
    let mut text = String::new();
    CsvExporter.write(&r, &mut text);
    let lines: Vec<&str> = text.lines().collect();
    assert_eq!(lines.len(), 3);
    assert_eq!(lines[2], "\"a,b.txt\",\"Text \"\"plain\"\"\",3,1,1,0,0,,,,,,,,");
}

#[test]
fn invalid_query_is_refused() {
    let language: tree_sitter::Language = tree_sitter_rust::LANGUAGE.into();
    let r = TreeSitterAnalyzer::new("Rust".to_string(), language, "(not_a_node) @function");
    assert!(matches!(r, Err(bscc::ast::AstError::Query(_))));
}

#[test]
fn todo_markers_are_found() {
    assert!(contains_todo(b"// TODO: later"));
    assert!(contains_todo(b"/* FIXME */"));
    assert!(contains_todo(b"# XXX"));
    assert!(contains_todo(b"-- HACK"));
    assert!(!contains_todo(b"// todo in lower case"));
    assert!(!contains_todo(b""));
}

#[test]
fn unparsable_source_keeps_counts_consistent() {
    let f = rust_analyzer().analyze("x.rs", b"fn (((\n\n// c\n");
    assert_eq!(f.lines, f.code + f.comments + f.blanks);
    assert_eq!(f.bytes, 13);
}

#[test]
fn tree_sitter_grammars_resolve_at_tree_sitter_tier() {
    let grammars: Vec<(&str, &str, tree_sitter::Language)> = vec![
        ("rs", "Rust", tree_sitter_rust::LANGUAGE.into()),
        ("py", "Python", tree_sitter_python::LANGUAGE.into()),
        ("ts", "TypeScript", tree_sitter_typescript::LANGUAGE_TYPESCRIPT.into()),
        ("tsx", "TSX", tree_sitter_typescript::LANGUAGE_TSX.into()),
        ("go", "Go", tree_sitter_go::LANGUAGE.into()),
        ("c", "C", tree_sitter_c::LANGUAGE.into()),
        ("cpp", "C++", tree_sitter_cpp::LANGUAGE.into()),
    ];
    let mut r = build_registry();
    for (ext, name, language) in grammars.clone() {
        let analyzer = match TreeSitterAnalyzer::new(name.to_string(), language, "") {
            Ok(a) => a,
            Err(_) => panic!("an empty query compiles for {name}"),
        };
        r.register(LanguageEntry {
            name: name.into(),
            extensions: vec![ext.into()],
            filenames: vec![],
            tier: Tier::TreeSitter,
            analyzer: Arc::new(analyzer),
        });
    }
    for (ext, name, _) in grammars {
        let entry = r
            .lookup_by_extension(ext)
            .unwrap_or_else(|| panic!(".{ext} should resolve"));
        assert_eq!(entry.name, name, "name for .{ext}");
        assert_eq!(entry.tier, Tier::TreeSitter, "tier for .{ext}");
    }
}

#[test]
fn sarif_envelope_is_version_2_1_0() {
    let e = SarifExporter::default().envelope();
    assert_eq!(e.version, "2.1.0");
    assert_eq!(e.schema, "https://json.schemastore.org/sarif-2.1.0.json");
    assert_eq!(e.tool_name, "bscc");
    assert_eq!(e.rules.len(), 2);
    assert_eq!(e.rules[0].id, "complexity/cyclomatic");
    assert_eq!(e.rules[1].id, "size/longest-function");
}
