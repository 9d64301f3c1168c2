[package]
name = "train_network"
version = "0.1.0"
edition = "2021"
publish = false

[dependencies]
pathfinding = "=4.16.0"
anyhow = "=1.0.104"
clap = { version = "=4.6.7", features = ["derive"] }
