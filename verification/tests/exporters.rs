use bscc::exporter::Exporter;
use bscc::html::{escape, HtmlExporter};
use bscc::metrics::FileMetrics;
use bscc::report::Report;
use bscc::table::{
    build_blocks, compute_widths, render_table, sort_rows, write_row, Line, Row, TableCosts,
    TableExporter, Widths,
};

fn file(path: &str, lang: &str, lines: u32, code: u32, comments: u32, blanks: u32) -> FileMetrics {
    let mut m = FileMetrics::new(path.to_string(), lang.to_string(), 100);
    m.lines = lines;
    m.code = code;
    m.comments = comments;
    m.blanks = blanks;
    m
}

fn row(name: &str, lines: u32) -> Row {
    Row {
        name: name.to_string(),
        files: 1,
        lines,
        code: lines,
        comments: 0,
        blanks: 0,
        complexity: 0,
        cost: None,
    }
}

fn mixed_report() -> Report {
    let mut r = Report::new();
    r.push(file("a.ts", "TypeScript", 30, 20, 5, 5));
    r.push(file("b.tsx", "TSX", 10, 8, 1, 1));
    r.push(file("c.rs", "Rust", 50, 40, 5, 5));
    r.push(file("d.c", "C", 7, 7, 0, 0));
    r
}

#[test]
fn rows_sort_by_lines_then_name() {
    let v = vec![row("b", 5), row("a", 5), row("c", 9)];
    let s = sort_rows(v);
    let names: Vec<&str> = s.iter().map(|r| r.name.as_str()).collect();
    assert_eq!(names, vec!["c", "a", "b"]);
}

#[test]
fn family_with_two_members_becomes_a_block() {
    let rows = sort_rows(vec![row("TypeScript", 30), row("TSX", 10), row("Rust", 50), row("C", 7)]);
    let blocks = build_blocks(&rows);
    assert_eq!(blocks.len(), 3);
    assert_eq!(blocks[0].head.name, "Rust");
    assert!(blocks[0].indented.is_empty());
    assert_eq!(blocks[1].head.name, "TS + TSX");
    assert_eq!(blocks[1].head.lines, 40);
    assert_eq!(blocks[1].head.files, 2);
    assert_eq!(blocks[1].head.cost, None);
    let members: Vec<&str> = blocks[1].indented.iter().map(|r| r.name.as_str()).collect();
    assert_eq!(members, vec!["TypeScript", "TSX"]);
    assert_eq!(blocks[2].head.name, "C");
}

#[test]
fn family_cost_sums_present_costs() {
    let mut a = row("C", 3);
    a.cost = Some(100);
    let b = row("C++", 4);
    let blocks = build_blocks(&vec![a, b]);
    assert_eq!(blocks.len(), 1);
    assert_eq!(blocks[0].head.name, "C + C++");
    assert_eq!(blocks[0].head.cost, Some(100));
    assert_eq!(blocks[0].head.lines, 7);
}

#[test]
fn widths_fit_names_and_headers() {
    let lines = vec![
        Line { name: "A very long language name".to_string(), cells: vec!["1".to_string(); 6], cost: String::new() },
        Line { name: "Total".to_string(), cells: vec!["123456789012".to_string(); 6], cost: "$12".to_string() },
    ];
    let w = compute_widths(&lines, false);
    assert_eq!(w.lang, 25);
    assert_eq!(w.num, 12);
    assert_eq!(w.cost, 0);
    assert_eq!(w.total_width(), 25 + 6 * 12 + 7);
    let narrow = compute_widths(&vec![Line { name: "C".to_string(), cells: vec!["1".to_string(); 6], cost: String::new() }], true);
    assert_eq!(narrow.lang, 8);
    assert_eq!(narrow.num, 10);
    assert_eq!(narrow.cost, 4);
    let costed = compute_widths(&lines, true);
    assert_eq!(costed.cost, 4);
}

#[test]
fn total_width_counts_the_cost_column() {
    let w = Widths { lang: 8, num: 10, cost: 4 };
    assert_eq!(w.total_width(), 8 + 60 + 5 + 7);
}

#[test]
fn row_is_padded_to_the_widths() {
    let w = Widths { lang: 8, num: 3, cost: 0 };
    let l = Line { name: "Go".to_string(), cells: vec!["1".to_string(), "22".to_string()], cost: "$5".to_string() };
    let mut out = String::new();
    write_row(&mut out, &l, &w);
    assert_eq!(out, "Go         1  22\n");
    let mut costed = String::new();
    write_row(&mut costed, &l, &Widths { lang: 8, num: 3, cost: 4 });
    assert_eq!(costed, "Go         1  22   $5\n");
}

#[test]
fn rendered_table_frames_rows_with_rules() {
    let w = Widths { lang: 8, num: 10, cost: 0 };
    let cells = vec!["1".to_string(); 6];
    let lines = vec![
        Line { name: "Rust".to_string(), cells: cells.clone(), cost: String::new() },
        Line { name: "Total".to_string(), cells, cost: String::new() },
    ];
    let header: Vec<String> = vec!["Language".to_string(), "H".to_string()];
    let mut out = String::new();
    render_table(&lines, &header, &w, &mut out);
    let text: Vec<&str> = out.lines().collect();
    let rule = "\u{2500}".repeat(8 + 60 + 7);
    assert_eq!(text.len(), 7);
    assert_eq!(text[0], rule);
    assert_eq!(text[1], "Language H");
    assert_eq!(text[2], rule);
    assert!(text[3].starts_with("Rust     "));
    assert_eq!(text[4], rule);
    assert!(text[5].starts_with("Total    "));
    assert_eq!(text[6], rule);
}

#[test]
fn table_groups_families_and_ends_with_total() {
    let mut out = String::new();
    TableExporter.write(&mixed_report(), &mut out);
    let text: Vec<&str> = out.lines().collect();
    assert_eq!(text.len(), 11);
    assert!(text[1].contains("Language"));
    assert!(text[1].contains("Complexity"));
    assert!(text[3].starts_with("Rust "));
    assert!(text[4].starts_with("TS + TSX "));
    assert!(text[5].starts_with("  TypeScript "));
    assert!(text[6].starts_with("  TSX "));
    assert!(text[7].starts_with("C "));
    assert_eq!(text[8], text[0]);
    assert!(text[9].starts_with("Total "));
    assert!(text[9].contains(" 97 "));
    assert_eq!(text[10], text[0]);
    let width = text[0].chars().count();
    assert_eq!(width, 12 + 6 * 10 + 7);
    // The rule counts one gutter more than the rows have.
    assert!(text[3..8].iter().all(|l| l.chars().count() == width - 1));
    assert_eq!(text[9].chars().count(), width - 1);
}

#[test]
fn html_languages_table_has_family_subtotal() {
    let mut out = String::new();
    HtmlExporter.write(&mixed_report(), &mut out);
    assert!(out.contains("<tr class=\"family\"><td>TS + TSX</td><td>2</td><td>40</td>"));
    let rust = out.find("<tr><td>Rust</td>").unwrap();
    let ts = out.find("<tr><td>TypeScript</td>").unwrap();
    let c = out.find("<tr><td>C</td>").unwrap();
    assert!(rust < ts && ts < c, "languages by lines");
    assert!(out.contains("<tr><td><code>a.ts</code></td><td>TypeScript</td><td>30</td><td>20</td><td class=\"muted\">\u{2014}</td>"));
}

#[test]
fn html_escape_replaces_markup() {
    assert_eq!(escape("a<b>&\"c'"), "a&lt;b&gt;&amp;&quot;c&#39;");
    assert_eq!(escape("plain"), "plain");
    assert_eq!(escape(""), "");
}

#[test]
fn block_heads_add_up_to_the_rows() {
    let rows = sort_rows(vec![
        row("TypeScript", 30),
        row("TSX", 10),
        row("Rust", 50),
        row("C", 7),
        row("C++", 3),
        row("JSX", 2),
    ]);
    let blocks = build_blocks(&rows);
    let heads: u32 = blocks.iter().map(|b| b.head.lines).sum();
    let all: u32 = rows.iter().map(|r| r.lines).sum();
    assert_eq!(heads, all);
    let files: u32 = blocks.iter().map(|b| b.head.files).sum();
    assert_eq!(files, 6);
    let names: Vec<&str> = blocks.iter().map(|b| b.head.name.as_str()).collect();
    assert_eq!(names, vec!["Rust", "TS + TSX", "C + C++", "JSX"]);
}

#[test]
fn table_with_costs_has_a_cost_column() {
    let costs = TableCosts {
        per_language: vec![
            ("Rust".to_string(), 500),
            ("TypeScript".to_string(), 300),
            ("TSX".to_string(), 100),
        ],
        project: 1200,
    };
    let mut out = String::new();
    TableExporter.write_with_costs(&mixed_report(), &costs, &mut out);
    let text: Vec<&str> = out.lines().collect();
    assert_eq!(text.len(), 11);
    assert!(text[1].ends_with("Cost"));
    assert!(text[3].starts_with("Rust ") && text[3].ends_with(" $500"));
    assert!(text[4].starts_with("TS + TSX ") && text[4].ends_with(" $400"));
    assert!(text[5].ends_with(" $300"));
    assert!(text[7].starts_with("C ") && text[7].ends_with("     "));
    assert!(text[9].starts_with("Total "));
    let total_cost = text[9].split_whitespace().last().unwrap();
    assert!(total_cost.starts_with("$1"));
    let cost_w = total_cost.chars().count().max(4);
    let width = text[0].chars().count();
    assert_eq!(width, 12 + 6 * 10 + 7 + cost_w + 1);
}
