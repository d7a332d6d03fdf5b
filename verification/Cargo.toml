[package]
name = "heatmap"
version = "0.1.0"
edition = "2021"
publish = false

[dependencies]
crossterm = "*"
chrono = "*"
clap = { version = "*", features = ["derive"] }
rusqlite = { version = "*", features = ["bundled"] }
thiserror = "*"
