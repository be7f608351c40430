use std::sync::Arc;

use bscc::metrics::FileMetrics;
use bscc::registry::{detect, LanguageEntry, Registry, Tier};
use bscc::report::Report;
use bscc::tokenizer::{LanguageConfig, RegexAnalyzer};

fn entry(name: &str, exts: &[&str]) -> LanguageEntry {
    let cfg = LanguageConfig {
        name: name.into(),
        extensions: exts.iter().map(|e| e.to_string()).collect(),
        filenames: vec![],
        line_comments: vec!["#".into()],
        block_comments: vec![],
        strings: vec![],
    };
    LanguageEntry {
        name: name.into(),
        extensions: exts.iter().map(|e| e.to_string()).collect(),
        filenames: vec![],
        tier: Tier::Regex,
        analyzer: Arc::new(RegexAnalyzer::new(cfg)),
    }
}

fn build_registry() -> Registry {
    let mut r = Registry::new();
    r.register(entry("HCL", &["hcl"]));
    r.register(entry("Terraform", &["tf", "tfvars", "tf.json"]));
    r.register(entry("Packer", &["pkr.hcl", "pkrvars.hcl"]));
    r.register(entry("JSON", &["json"]));
    r
}

#[test]
fn packer_extension_routes_to_packer_not_hcl() {
    let registry = build_registry();
    let entry = registry
        .lookup_by_path("anywhere/foo.pkr.hcl")
        .expect("pkr.hcl resolves");
    assert_eq!(entry.name, "Packer");
}

#[test]
fn terraform_json_routes_to_terraform_not_json() {
    let registry = build_registry();
    let entry = registry
        .lookup_by_path("anywhere/infra.tf.json")
        .expect("tf.json resolves");
    assert_eq!(entry.name, "Terraform");
}

#[test]
fn plain_extensions_and_misses() {
    let registry = build_registry();
    assert_eq!(registry.lookup_by_path("x/config.hcl").unwrap().name, "HCL");
    assert_eq!(registry.lookup_by_path("x/data.json").unwrap().name, "JSON");
    assert_eq!(registry.lookup_by_path("x/MAIN.TF").unwrap().name, "Terraform");
    assert!(registry.lookup_by_path("x/README").is_none());
    assert!(registry.lookup_by_path("x/.hcl").is_none());
    assert_eq!(detect(&registry, "a/b.tfvars").unwrap().name, "Terraform");
}

#[test]
fn registering_a_name_again_replaces_it() {
    let mut registry = build_registry();
    assert_eq!(registry.len(), 4);
    registry.register(entry("HCL", &["hcl2"]));
    assert_eq!(registry.len(), 4);
    assert_eq!(registry.languages()[0].extensions, vec!["hcl2".to_string()]);
    assert_eq!(registry.lookup_by_name("HCL").unwrap().extensions, vec!["hcl2".to_string()]);
    assert_eq!(registry.lookup_by_extension("HCL2").unwrap().name, "HCL");
    assert!(registry.lookup_by_name("Go").is_none());
    assert!(!registry.is_empty());
    assert!(Registry::new().is_empty());
}

fn file(path: &str, lang: &str, lines: u32) -> FileMetrics {
    let mut m = FileMetrics::new(path.to_string(), lang.to_string(), 10);
    m.lines = lines;
    m.code = lines;
    m
}

#[test]
fn hashicorp_languages_split_into_three_buckets() {
    let registry = build_registry();
    let mut report = Report::new();
    for path in ["main.tf", "variables.tfvars", "config.hcl", "builder.pkr.hcl"] {
        let e = registry.lookup_by_path(path).expect("registered");
        report.push(file(path, &e.name, 3));
    }
    let totals = report.by_language();
    let get = |n: &str| totals.iter().find(|t| t.language == n).expect("bucket present");
    assert_eq!(get("Terraform").files, 2, "main.tf + variables.tfvars");
    assert_eq!(get("HCL").files, 1, "config.hcl");
    assert_eq!(get("Packer").files, 1, "builder.pkr.hcl");
}

#[test]
fn language_totals_add_up_to_the_grand_total() {
    let mut report = Report::new();
    report.push(file("a.rs", "Rust", 10));
    report.push(file("b.py", "Python", 7));
    report.push(file("c.rs", "Rust", 5));
    let totals = report.by_language();
    let names: Vec<&str> = totals.iter().map(|t| t.language.as_str()).collect();
    assert_eq!(names, vec!["Python", "Rust"]);
    let grand = report.grand_total();
    assert_eq!(grand.language, "Total");
    assert_eq!(grand.files, 3);
    assert_eq!(totals.iter().map(|t| t.lines).sum::<u32>(), grand.lines);
    assert_eq!(totals.iter().map(|t| t.files).sum::<u32>(), grand.files);
    assert_eq!(totals[1].lines, 15);
}

#[test]
fn replacing_a_language_drops_its_old_extensions() {
    let mut r = Registry::new();
    r.register(entry("Shell", &["sh", "bash"]));
    r.register(entry("Shell", &["sh"]));
    assert_eq!(r.len(), 1);
    assert_eq!(r.lookup_by_extension("sh").unwrap().name, "Shell");
    assert_eq!(r.lookup_by_extension("sh").unwrap().extensions, vec!["sh".to_string()]);
    assert!(r.lookup_by_extension("bash").is_none());
    assert!(r.lookup_by_path("x/run.bash").is_none());
}

#[test]
fn extension_claimed_by_another_language_moves_to_it() {
    let mut r = Registry::new();
    r.register(entry("HCL", &["hcl"]));
    r.register(entry("Packer", &["hcl"]));
    assert_eq!(r.lookup_by_extension("HCL").unwrap().name, "Packer");
    assert_eq!(r.lookup_by_name("HCL").unwrap().name, "HCL");
}
