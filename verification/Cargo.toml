[package]
name = "filewatch"
version = "0.1.0"
edition = "2021"
publish = false

[dependencies]
rusqlite = { version = "*", features = ["bundled"] }
notify = "*"
crossterm = "*"
ratatui = "*"
clap = { version = "*", features = ["derive"] }
log = "*"
simplelog = "*"
