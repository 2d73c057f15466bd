[package]
name = "avian"
version = "0.1.0"
edition = "2021"
publish = false

[dependencies]
clap = "2"
env_logger = "*"
serde = { version = "1", features = ["derive"] }
serde_derive = "1"
serde_json = "1"
ws = "*"
