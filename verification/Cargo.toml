[package]
name = "tag_map"
version = "0.1.0"
edition = "2021"
publish = false

[dev-dependencies]
candid = { version = "*", default-features = false }
