[package]
name = "tsrust"
version = "0.1.0"
edition = "2021"
publish = false

[dependencies]
regex = "1"
serde = { version = "1", features = ["derive"] }
serde_json = "1"
walkdir = "2"
anyhow = "1"
duct = "*"
clap = { version = "4", features = ["derive"] }
