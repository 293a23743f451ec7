[package]
name = "devpilot"
version = "0.1.0"
edition = "2021"
publish = false

[dependencies]
serde = { version = "1", features = ["derive"] }
serde_json = "1"
toml = "*"
tree-sitter = "*"
tree-sitter-rust = "*"
tree-sitter-typescript = "*"
tree-sitter-javascript = "*"
git2 = "*"
reqwest = { version = "*", features = ["json", "stream"] }
tokio = { version = "1", features = ["rt-multi-thread", "macros"] }
async-trait = "*"
async-stream = "*"
futures-util = "*"
futures-core = "*"
thiserror = "*"
