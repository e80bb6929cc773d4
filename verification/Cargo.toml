[package]
name = "mdc"
version = "0.1.0"
edition = "2021"
publish = false

[dependencies]
anyhow = "1"
clap = { version = "4", features = ["derive"] }
comfy-table = "7"
dirs = "*"
serde = { version = "1", features = ["derive"] }
serde_json = "1"
trash = "*"
walkdir = "2"
