[package]
name = "maze_turns"
version = "0.1.0"
edition = "2021"
publish = false

[dependencies]
num-bigint = "*"
clap = { version = "*", features = ["derive"] }
