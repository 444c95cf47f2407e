[package]
name = "ray-trace-rust"
version = "0.1.0"
edition = "2021"
publish = false

[dependencies]
egui = "*"
rand = "0.8"
nalgebra = "*"
serde = { version = "1", features = ["derive"] }
serde_yaml = "*"
image = { version = "0.25", default-features = false, features = ["png", "jpeg"] }
gltf = "1"
rayon = "1"
env_logger = "*"
