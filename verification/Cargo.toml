[package]
name = "gitview"
version = "0.1.0"
edition = "2021"
publish = false

[dependencies]
anyhow = "1"
crossterm = "0.28"
ratatui = "0.29"
serde = { version = "1", features = ["derive"] }
serde_json = "1"
similar = "2"
syntect = { version = "5", default-features = false, features = ["default-fancy"] }
toml = "0.8"
two-face = { version = "0.4", default-features = false, features = ["syntect-fancy"] }
unicode-width = "0.2"
