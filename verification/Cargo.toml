[package]
name = "board_games"
version = "0.1.0"
edition = "2021"
publish = false

[dependencies]
ggez = { version = "=0.9.3", default-features = false }
rand = "=0.8.8"
ron = "=0.8.1"
serde = { version = "=1.0.229", features = ["derive"] }
