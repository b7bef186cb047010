[package]
name = "penguin_mcts"
version = "0.1.0"
edition = "2021"

[dependencies]
clap = { version = "=4.6.7", features = ["derive"] }
log = "=0.4.34"
simplelog = "=0.12.2"
