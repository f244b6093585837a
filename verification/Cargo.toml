[package]
name = "symdex"
version = "0.1.0"
edition = "2021"
publish = false

[dependencies]
tree-sitter = "*"
streaming-iterator = "*"
anyhow = "*"
serde = { version = "*", features = ["derive"] }
toml = "*"
clap = { version = "*", features = ["derive"] }
tree-sitter-rust = "*"
tree-sitter-javascript = "*"
