[package]
name = "filo"
version = "0.1.0"
edition = "2021"
publish = false

[dependencies]
sha2 = "0.10"
regex = "1"
chrono = { version = "0.4", features = ["serde"] }
uuid = { version = "1", features = ["v4", "serde"] }
serde = { version = "1", features = ["derive"] }
serde_json = "1"
toml = "0.8"
walkdir = "2"
directories = "6"
clap = { version = "4", features = ["derive"] }
comfy-table = "7"
anyhow = "1"
thiserror = "2"
