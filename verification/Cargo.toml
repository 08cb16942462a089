[package]
name = "replay_rs"
version = "0.1.0"
edition = "2021"
publish = false

[dependencies]
serde_json = "1"
clap = { version = "4", features = ["derive"] }
terminal_size = "*"

[dev-dependencies]
tempfile = "3"
