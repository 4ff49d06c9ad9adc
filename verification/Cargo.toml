[package]
name = "deordinal"
version = "0.1.0"
edition = "2021"
publish = false

[dependencies]
pulldown-cmark = { version = "=0.13.6", default-features = false }
tree-sitter = "=0.27.1"
tree-sitter-javascript = "=0.25.0"
tree-sitter-typescript = "=0.23.2"
tree-sitter-python = "=0.25.0"
tree-sitter-html = "=0.23.2"
globset = "=0.4.21"
clap = { version = "=4.6.7", features = ["derive"] }
ignore = "=0.4.34"
tempfile = "=3.27.0"
serde = { version = "=1.0.229", features = ["derive"] }
jsonc-parser = { version = "=0.34.0", features = ["serde"] }
