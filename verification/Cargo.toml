[package]
name = "point_index"
version = "0.1.0"
edition = "2021"
publish = false

[dependencies]
ahash = "*"
approx = "=0.5.1"
bincode = { version = "=2.0.1", features = ["derive"] }
glam = { version = "=0.34.1", features = ["serde"] }
serde = { version = "=1.0.229", features = ["derive"] }
serde_json = "=1.0.154"
