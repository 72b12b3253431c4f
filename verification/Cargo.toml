[package]
name = "mempool_dat"
version = "0.1.0"
edition = "2021"
publish = false

[dependencies]
bitcoin = "0.32"
clap = { version = "4", features = ["derive"] }
crossterm = "0.28"
ratatui = "0.29"
