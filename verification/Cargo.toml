[package]
name = "crossword"
version = "0.1.0"
edition = "2021"
publish = false

[dependencies]
rand = "0.8"
sqlite = "0.26"
crossterm = "0.25"
clap = { version = "3.2", features = ["derive"] }
rusty_audio = "1.4"
enable-ansi-support = "*"
