[package]
name = "harmonic_grid"
version = "0.1.0"
edition = "2021"
publish = false

[dependencies]
glam = "0.27"
egui = { version = "0.27", default-features = false }
env_logger = { version = "0.10", default-features = false }
serde = { version = "1", features = ["derive"] }
