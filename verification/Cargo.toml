[package]
name = "markdown_neuraxis"
version = "0.1.0"
edition = "2021"
publish = false

[dependencies]
xi-rope = "*"
uuid = { version = "1", features = ["v4"] }
pulldown-cmark = { version = "0.11", default-features = false }
tree-sitter = "0.25"
tree-sitter-md = "0.3"
relative-path = "1"
