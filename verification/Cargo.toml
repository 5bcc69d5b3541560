[package]
name = "meta_cache"
version = "0.1.0"
edition = "2021"
publish = false

[dependencies]
anyhow = "1"
arrow = { version = "53", default-features = false }
indexmap = "2"
