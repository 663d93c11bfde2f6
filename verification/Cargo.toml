[package]
name = "tto"
version = "0.1.0"
edition = "2021"
publish = false

[dependencies]
chrono = "0.4"
libc = "0.2"
serde = { version = "1", features = ["derive"] }
serde_json = "1"
toml = "0.8"
clap = { version = "4", features = ["derive"] }
objc2 = "0.6"
objc2-foundation = "0.3"
objc2-app-kit = "0.3"
