[package]
name = "versync"
version = "0.1.0"
edition = "2021"
publish = false

[dependencies]
serde_norway = "*"
serde_json = "*"
clap = { version = "*", features = ["derive"] }
colored = "*"
human-panic = "*"
anyhow = "*"
