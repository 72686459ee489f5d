[package]
name = "runison"
version = "0.1.0"
edition = "2021"
publish = false

[dependencies]
glob = "0.3"
walkdir = "2"
clap = "2"
figment = { version = "0.10", features = ["toml"] }
serde = { version = "1", features = ["derive"] }
message-io = "*"
