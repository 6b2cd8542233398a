[package]
name = "search_core"
version = "0.1.0"
edition = "2021"
publish = false

[dependencies]
arbitrary = "1"
serde_json = "1"
