[package]
name = "kitchen"
version = "0.1.0"
edition = "2021"
publish = false

[dependencies]
rustdds = "*"
serde = { version = "*", features = ["derive"] }
