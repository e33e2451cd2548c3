[package]
name = "vikt"
version = "0.1.0"
edition = "2021"
publish = false

[dependencies]
mokapot = { version = "=0.26.0", features = ["unstable-moka-ir"] }
oxc_allocator = "=0.143.0"
oxc_ast = "=0.143.0"
oxc_parser = "=0.143.0"
oxc_semantic = "=0.143.0"
oxc_span = "=0.143.0"
oxc_syntax = "=0.143.0"
serde = { version = "=1.0.229", features = ["derive"] }
serde_json = "=1.0.154"
thiserror = "=2.0.21"
tree-sitter = "=0.26.13"
tree-sitter-go = "=0.25.0"
tree-sitter-java = "=0.23.5"
tree-sitter-kotlin-ng = "=1.1.0"
tree-sitter-python = "=0.25.0"
tree-sitter-rust = "=0.24.2"
