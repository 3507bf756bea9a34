[package]
name = "dress"
version = "0.1.0"
edition = "2021"
publish = false

[dependencies]
anyhow = "1"
clap = { version = "4", features = ["derive"] }
comrak = { version = "*", default-features = false }
ratatui = "*"
syntect = { version = "5", default-features = false, features = ["default-fancy"] }
two-face = { version = "*", default-features = false, features = ["syntect-fancy"] }
unicode-width = "*"
