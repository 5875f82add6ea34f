[package]
name = "qgate"
version = "0.1.0"
edition = "2021"
publish = false

[dependencies]
anyhow = "=1.0.104"
clap = { version = "=4.6.7", features = ["derive"] }
serde = { version = "=1.0.229", features = ["derive"] }
serde_json = "=1.0.154"
toml = "=0.8.23"
tree-sitter = "0.25"
tree-sitter-java = "0.23"
brokk-tree-sitter-kotlin = "0.4.2"
