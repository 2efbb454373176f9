[package]
name = "ttd"
version = "0.1.0"
edition = "2021"
publish = false

[dependencies]
ratatui = { version = "0.29", features = ["unstable-rendered-line-info"] }
crossterm = "0.28"
time = { version = "0.3", features = ["macros", "formatting", "local-offset"] }
clap = { version = "4", features = ["derive"] }
