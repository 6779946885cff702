[package]
name = "archive_reader"
version = "0.1.0"
edition = "2021"
publish = false

[dependencies]
serde_json = "1"
byteorder = "1"
indicatif = "0.17"
anyhow = "1"
thiserror = "1"
