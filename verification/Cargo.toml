[package]
name = "lau-signal-processing-agents"
version = "0.1.0"
edition = "2021"
publish = false

[dependencies]
num-complex = "0.4"
nalgebra = "0.33"
serde = { version = "1", features = ["derive"] }
