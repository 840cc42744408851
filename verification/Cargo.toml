[package]
name = "operator"
version = "0.1.0"
edition = "2021"
publish = false

[dependencies]
git2 = { version = "*", default-features = false }
pulldown-cmark = { version = "*", default-features = false }
serde = { version = "1", features = ["derive"] }
serde_json = "1"
dirs = "*"
ignore = "*"
notify = "*"
log = "0.4"
smol = "2"
tree-sitter = "*"
tree-sitter-highlight = "*"
tree-sitter-rust = "*"
tree-sitter-json = "*"
tree-sitter-python = "*"
tree-sitter-javascript = "*"
tree-sitter-typescript = "*"
tree-sitter-md = "*"
