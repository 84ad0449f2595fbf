[package]
name = "cargo-sweep"
version = "0.1.0"
edition = "2021"
publish = false

[dependencies]
anyhow = "1"
cargo_metadata = "*"
clap = { version = "4", features = ["derive"] }
crossterm = "*"
fern = { version = "*", features = ["colored"] }
human-size = "*"
log = "0.4"
rustc-stable-hash = "*"
serde = { version = "1", features = ["derive"] }
serde_json = "1"
walkdir = "2"
