//! bscc: a line counter with a structural-metrics tier.
//!
//! The verified library holds the counting engine: the declarative
//! regex-tier tokenizer, the line classifier of the tree-sitter tier,
//! the language registry, report aggregation, the exporters' text, the
//! git log reader, the LSP diagnostics and what the subcommands print.
pub mod tokenizer;
pub mod metrics;
pub mod lines;
pub mod ast;
pub mod text;
pub mod registry;
pub mod report;
pub mod totals;
pub mod fmt;
pub mod csv;
pub mod cost;
pub mod config;
pub mod sarif;
pub mod html;
pub mod fixture;
pub mod lsp;
pub mod table;
pub mod table_sums;
pub mod git;
pub mod exporter;
pub mod cli;
pub mod walk;
