[package]
name = "tree_search"
version = "0.1.0"
edition = "2021"
publish = false

[dependencies]
rand = "0.6"

[dev-dependencies]
ordered-float = "1.0"
