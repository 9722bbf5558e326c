[package]
name = "bsv"
version = "0.1.0"
edition = "2021"
publish = false

[dependencies]
anyhow = "*"
crossterm = "*"
jsonschema = { version = "*", default-features = false }
once_cell = "*"
ratatui = "*"
serde = { version = "*", features = ["derive"] }
serde_json = "*"
serde_yaml = "*"
walkdir = "*"
