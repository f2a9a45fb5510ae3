[package]
name = "arrow_puzzle"
version = "0.1.0"
edition = "2021"
publish = false

[dependencies]
rand = "*"
macroquad = "*"
kira = "*"
chrono = "*"
serde = { version = "*", features = ["derive"] }
serde_json = "*"
