[package]
name = "temprix"
version = "0.1.0"
edition = "2021"
publish = false

[dependencies]
clap = { version = "4", features = ["derive"] }
libc = "0.2"
notify = "6"
serde = { version = "1", features = ["derive"] }
serde_json = "1"
