[package]
name = "gitviz"
version = "0.1.0"
edition = "2021"
publish = false

[dependencies]
flate2 = "*"
chrono = "*"
thiserror = "*"
anyhow = "*"
clap = { version = "*", features = ["derive"] }
crossterm = "*"
ratatui = "*"
rayon = "*"
