[package]
name = "typstudio_core"
version = "0.1.0"
edition = "2021"
publish = false

[dependencies]
chrono = "*"
dirs = "*"
walkdir = "*"
serde_json = "*"
serde = { version = "*", features = ["derive"] }
notify = "*"
memmap2 = "*"
