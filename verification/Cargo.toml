[package]
name = "bscc"
version = "0.1.0"
edition = "2021"
publish = false

[dependencies]
memchr = "2"
tree-sitter = "*"
tree-sitter-language = "*"
tree-sitter-rust = "*"
tree-sitter-python = "*"
tree-sitter-typescript = "*"
tree-sitter-go = "*"
tree-sitter-c = "*"
tree-sitter-cpp = "*"
tree-sitter-hcl = "*"
num-format = { version = "*", features = ["with-system-locale"] }
once_cell = "*"
serde = { version = "1", features = ["derive"] }
serde_json = "1"
toml = "*"
anyhow = "1"
thiserror = "*"
clap = { version = "4", features = ["derive"] }
ignore = "*"
rayon = "*"
owo-colors = { version = "*", features = ["supports-colors"] }
tokio = { version = "1", features = ["rt-multi-thread", "io-std", "sync", "macros"] }
tower-lsp = "*"
