[package]
name = "chromatui"
version = "0.1.0"
edition = "2021"
publish = false

[dependencies]
anyhow = "1"
cpal = "0.15"
crossterm = "0.28"
dirs = "5"
ratatui = "0.29"
realfft = "3"
serde = { version = "1", features = ["derive"] }
toml = "0.8"
