[package]
name = "q3"
version = "0.1.0"
edition = "2021"
publish = false

[dependencies]
pyo3 = { version = "0.22", features = ["auto-initialize"] }
indexmap = { version = "2", features = ["serde"] }
serde = { version = "1", features = ["derive"] }
toml = "0.8"
clap = { version = "4", features = ["derive"] }
crossterm = "0.27"
ratatui = "0.26"
arboard = "3"
unicode-width = "0.1"
thiserror = "1"
