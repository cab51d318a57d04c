[package]
name = "beaver"
version = "0.1.0"
edition = "2021"
publish = false

[dependencies]
unicode-normalization = "0.1"
unicode-width = "0.2"
clap = { version = "4", features = ["derive"] }
ratatui = "0.29"

[dev-dependencies]
tempfile = "3"
