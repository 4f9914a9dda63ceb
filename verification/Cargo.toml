[package]
name = "persistence"
version = "0.1.0"
edition = "2021"
publish = false

[dependencies]
regex = "1"

[dev-dependencies]
bincode = "1.3"
serde = "1"
