[package]
name = "sf21_22"
version = "0.1.0"
edition = "2021"
publish = false

[dependencies]
board-game = "*"
chess = "*"
rand = "0.8"
dirs = "*"
regex = "*"
internal-iterator = "*"
