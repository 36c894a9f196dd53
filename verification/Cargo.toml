[package]
name = "bounty_registry"
version = "0.1.0"
edition = "2021"
publish = false

[dependencies]
near-rng = "*"
near-sdk = { version = "4.1.1", default-features = false }
serde = { version = "1", features = ["derive"] }
