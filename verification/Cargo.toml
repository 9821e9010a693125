[package]
name = "lccp"
version = "0.3.0"
edition = "2021"
publish = false

[dependencies]
serde_json = "1"
thiserror = "2"
toml = "0.8"
