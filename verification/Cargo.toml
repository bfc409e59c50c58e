[package]
name = "fzf"
version = "0.1.0"
edition = "2021"
publish = false

[dependencies]
ansi-to-tui = "7"
crossterm = "0.28"
once_cell = "1"
ratatui = "0.29"
syntect = { version = "5", default-features = false, features = ["default-fancy"] }
