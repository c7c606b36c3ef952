[package]
name = "nexus"
version = "0.1.0"
edition = "2021"
publish = false

[dependencies]
sha2 = "0.10"
serde = { version = "1", features = ["derive"] }
serde_json = "1"
dirs = "5"
chrono = "0.4"
clap = { version = "4", features = ["derive"] }
anyhow = "1"
