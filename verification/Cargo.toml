[package]
name = "cpp-navigator"
version = "0.1.0"
edition = "2021"

[dependencies]
anyhow = "1"
clang = { version = "2", features = ["runtime", "clang_6_0"] }
clap = { version = "4", features = ["derive"] }
crossterm = "*"
grep = "*"
ignore = "0.4"
regex = "1"
serde = { version = "1", features = ["derive"] }
serde_json = "1"
tree-sitter = "0.25"
tree-sitter-cpp = "0.23"
