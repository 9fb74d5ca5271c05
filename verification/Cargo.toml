[package]
name = "lets"
version = "0.1.0"
edition = "2021"
publish = false

[dependencies]
grep-regex = "0.1"
grep-searcher = "0.1"
ignore = "0.4"
regex = "1"
serde_json = "1"
tree-sitter = "*"
