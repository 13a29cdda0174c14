[package]
name = "bf_rs"
version = "0.1.0"
edition = "2021"
publish = false

[dependencies]
anyhow = "1"
clap = "2"
serde = "1"
serde_json = "1"
