[package]
name = "metainfo"
version = "0.1.0"
edition = "2021"
publish = false

[dependencies]
clap = { version = "4", features = ["derive"] }
indexmap = "2"
sha1 = "0.10"
sha2 = "0.10"
