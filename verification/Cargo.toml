[package]
name = "otf-2d-engine"
version = "0.1.0"
edition = "2021"
publish = false

[dependencies]
bytemuck = { version = "1", features = ["derive"] }
libm = "0.2"
serde_json = "1"
