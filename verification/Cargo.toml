[package]
name = "tool"
version = "0.1.0"
edition = "2021"
publish = false

[dependencies]
nalgebra = { version = "0.31", features = ["serde-serialize"] }
serde = "1"
serde_json = "1"
num-traits = "0.2"
itertools = "0.10"
