[package]
name = "tree_magic_rs"
version = "0.1.0"
edition = "2021"
publish = false

[dependencies]
petgraph = "0.6"
fnv = "1"
thiserror = "1"
once_cell = "1"
derive_more = "0.99"
