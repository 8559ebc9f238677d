[package]
name = "voxmap"
version = "0.1.0"
edition = "2021"
publish = false

[dependencies]
bytemuck = { version = "1", features = ["derive"] }
dot_vox = "5"
env_logger = "0.11"
nalgebra = "0.33"
ndarray = "0.16"
pollster = "0.4"
quaternion = "*"
rand = "0.9"
tokio = { version = "1", features = ["macros", "rt-multi-thread"] }
wgpu = "24"
wide = "0.7"
winit = "0.30"
