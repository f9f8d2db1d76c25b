[package]
name = "rusty_platter"
version = "0.1.0"
edition = "2021"
publish = false

[dependencies]
data-encoding = "2"
ring = "0.17"
serde = { version = "1", features = ["derive"] }
serde_json = "1"

[dev-dependencies]
tempdir = "0.3"
