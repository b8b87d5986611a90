[package]
name = "diskwatch"
version = "0.1.0"
edition = "2021"
publish = false

[dependencies]
chrono = "0.4"
clap = { version = "4", features = ["derive"] }
rusqlite = { version = "*", features = ["chrono"] }
rust-crypto = "0.2.36"
walkdir = "2"
