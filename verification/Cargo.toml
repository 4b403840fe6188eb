[package]
name = "flamelens"
version = "0.1.0"
edition = "2021"
publish = false

[dependencies]
regex = "*"
ratatui = "*"
crossterm = "*"
tui-input = "*"
clap = { version = "*", features = ["derive"] }
