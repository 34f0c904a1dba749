[package]
name = "persistent_paths"
version = "0.1.0"
edition = "2021"
publish = false

[dependencies]
itertools = "*"
anyhow = "*"
bon = "*"
