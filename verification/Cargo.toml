[package]
name = "my_webgpu_app"
version = "0.1.0"
edition = "2021"
publish = false

[dependencies]
nalgebra = "=0.35.0"
serde = { version = "1", features = ["derive"] }
serde_json = "1"
spade = "=2.15.1"
