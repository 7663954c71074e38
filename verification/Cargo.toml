[package]
name = "record_layout"
version = "0.1.0"
edition = "2021"
publish = false

[dependencies]
anyhow = "1"
clang = { version = "1", features = ["runtime"] }
env_logger = "0.9"
indexmap = "1"
itertools = "0.10"
log = "0.4"
