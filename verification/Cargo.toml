[package]
name = "jj-yield"
version = "0.1.0"
edition = "2021"
publish = false

[dependencies]
similar = { version = "2", features = ["inline"] }
anyhow = "1"
ratatui = "*"
tree-sitter = "*"
tree-sitter-highlight = "*"
tree-sitter-javascript = "*"
tree-sitter-json = "*"
tree-sitter-python = "*"
tree-sitter-ruby = "*"
tree-sitter-rust = "*"
tree-sitter-typescript = "*"
