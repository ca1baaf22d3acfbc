[package]
name = "tengo_lsp"
version = "0.1.0"
edition = "2021"
publish = false

[dependencies]
dashmap = "6"
env_logger = "0.11"
log = "0.4"
tokio = { version = "1", features = ["io-std", "macros", "rt-multi-thread"] }
tower-lsp = "0.20"
tree-sitter = "0.25"

[dev-dependencies]
tree-sitter-go = "*"
