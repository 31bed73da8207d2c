[package]
name = "dreamer"
version = "0.1.0"
edition = "2021"
publish = false

[dependencies]
rand = "0.8"
image = { version = "0.25", default-features = false, features = ["png"] }
burn = { version = "0.18", default-features = false, features = ["std", "ndarray", "autodiff"] }
bytemuck = { version = "1", features = ["derive"] }
pollster = "0.4"
rapier3d = "0.25"
wgpu = "24"
