[package]
name = "local_code_search"
version = "0.1.0"
edition = "2021"
publish = false

[dependencies]
tree-sitter = "*"
tree-sitter-c = "*"
tree-sitter-cpp = "*"
tree-sitter-c-sharp = "*"
tree-sitter-go = "*"
tree-sitter-java = "*"
tree-sitter-json = "*"
tree-sitter-kotlin-ng = "*"
tree-sitter-python = "*"
tree-sitter-rust = "*"
tree-sitter-scala = "*"
tree-sitter-typescript = "*"
tree-sitter-yaml = "*"
blake2 = "*"
ignore = "*"
anyhow = "*"
serde = { version = "*", features = ["derive"] }
dashmap = "*"
thiserror = "*"
