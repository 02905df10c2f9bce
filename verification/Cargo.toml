[package]
name = "minesweeper"
version = "0.1.0"
edition = "2021"

[dependencies]
arrayvec = "0.7"
rand = "0.8"
termion = "*"
