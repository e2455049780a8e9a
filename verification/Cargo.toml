[package]
name = "cuemap"
version = "0.2.1"
edition = "2021"
publish = false

[dependencies]
indexmap = "*"
dashmap = "*"
regex = "*"
uuid = { version = "*", features = ["v4", "v5"] }
serde = { version = "*", features = ["derive"] }
serde_json = "*"
axum = "*"
tokio = { version = "*", features = ["full"] }
clap = { version = "*", features = ["derive"] }
notify = "*"
ignore = "*"
sha2 = "*"
reqwest = { version = "*", features = ["json"] }
csv = "*"
serde_yaml = "*"
roxmltree = "*"
tree-sitter = "*"
tree-sitter-python = "*"
tree-sitter-rust = "*"
tree-sitter-typescript = "*"
tree-sitter-javascript = "*"
tree-sitter-go = "*"
tree-sitter-html = "*"
tree-sitter-css = "*"
tree-sitter-php = "*"
tree-sitter-java = "*"
