[package]
name = "go_game"
version = "0.1.0"
edition = "2021"
publish = false

[dependencies]
cgmath = "0.18"
libremarkable = "*"
once_cell = "1"
rusttype = "0.9"
