[package]
name = "cfg_pascal"
version = "0.1.0"
edition = "2021"
publish = false

[dependencies]
tree-sitter = "0.24"
tree-sitter-pascal = "0.10"
