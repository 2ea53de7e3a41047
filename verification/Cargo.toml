[package]
name = "formatter"
version = "0.1.0"
edition = "2021"
publish = false

[dependencies]
tree-sitter = "0.24"
walkdir = "2"
