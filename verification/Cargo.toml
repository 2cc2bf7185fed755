[package]
name = "foaks"
version = "0.1.0"
edition = "2021"
publish = false

[dependencies]
ring = "0.17"
rand = "0.8"
serde = { version = "1", features = ["derive"] }
bincode = "1"
ethnum = "1"

[dev-dependencies]
