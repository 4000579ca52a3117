[package]
name = "legal_pad"
version = "0.1.0"
edition = "2021"
publish = false

[dependencies]
hnsw_rs = "*"
clap = { version = "*", features = ["derive"] }
crossterm = "*"
ratatui = "*"
chrono = { version = "*", default-features = false, features = ["clock"] }
dirs = "*"
