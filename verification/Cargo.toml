[package]
name = "docs_manager"
version = "0.1.0"
edition = "2021"
publish = false

[dependencies]
chrono = "*"
glob = "*"
clap = { version = "*", features = ["derive"] }
serde = { version = "*", features = ["derive"] }
toml = "*"
walkdir = "*"
