[package]
name = "dotfiler"
version = "0.1.0"
edition = "2021"
publish = false

[dependencies]
rusqlite = { version = "*", features = ["bundled"] }
toml = "*"
walkdir = "*"
clap = "*"

[dev-dependencies]
tempfile = "*"
