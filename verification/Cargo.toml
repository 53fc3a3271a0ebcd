[package]
name = "lalrpop_lsp"
version = "0.1.0"
edition = "2021"
publish = false

[dependencies]
lalrpop = "*"
tower-lsp = "0.20"
dashmap = "*"
tokio = { version = "1", features = ["io-std", "macros", "rt-multi-thread"] }
env_logger = "*"
zed_extension_api = "*"
