[package]
name = "chezmoi_files"
version = "0.1.0"
edition = "2021"
publish = false

[dependencies]
clap = { version = "*", features = ["derive"] }
indexmap = "*"
serde = { version = "*", features = ["derive"] }
toml = "*"
