[package]
name = "hun"
version = "0.1.0"
edition = "2021"
publish = false

[dependencies]
anyhow = "1"
chrono = "0.4"
clap = { version = "4", features = ["derive"] }
crossterm = "0.27"
dirs = "5"
hostname = "0.4"
ratatui = "0.26"
rusqlite = "0.31"
