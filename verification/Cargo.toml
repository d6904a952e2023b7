[package]
name = "gitignore_ls"
version = "0.1.0"
edition = "2021"
publish = false

[dependencies]
percent-encoding = "*"
tokio = { version = "*", features = ["full"] }
tower-lsp = "*"
