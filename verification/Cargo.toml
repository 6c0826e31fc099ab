[package]
name = "leandown"
version = "0.1.0"
edition = "2021"
publish = false

[dependencies]
anyhow = "1"
clap = { version = "4", features = ["derive"] }
html-escape = "0.2"
indexmap = "2"
notify = "6"
regex-syntax = "0.8"
serde = { version = "1", features = ["derive"] }
tiny_http = "0.12"
toml = "0.8"
walkdir = "2"
