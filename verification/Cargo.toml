[package]
name = "beholder"
version = "0.1.0"
edition = "2021"
publish = false

[dependencies]
sha2 = "0.10"
serde = { version = "1", features = ["derive"] }
serde_json = "1"
anyhow = "1"
clap = { version = "4", features = ["derive"] }
git2 = "0.20"
ignore = "0.4"
toml = "0.8"
tree-sitter = "0.25"
tree-sitter-rust = "0.24"
protobuf = "3"
scip = "0.5"
