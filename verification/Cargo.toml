[package]
name = "voxel_engine"
version = "0.1.0"
edition = "2021"
publish = false

[dependencies]
hashbrown = "*"
zstd = "*"
bytemuck = { version = "*", features = ["derive"] }
glam = "*"
fastnoise-lite = "*"
cgmath = "*"
wgpu = "*"
winit = "*"
pollster = "*"
env_logger = "*"
image = { version = "*", default-features = false, features = ["png"] }
