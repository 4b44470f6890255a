[package]
name = "norg_pandoc_ast"
version = "0.1.0"
edition = "2021"
publish = false

[dependencies]
clap = { version = "4", features = ["derive", "cargo"] }
dirs = "*"
pandoc_ast = "0.8"
rusty_pool = "*"
tree-sitter = "0.20"
tree-sitter-norg = "*"
walkdir = "2"
