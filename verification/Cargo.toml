[package]
name = "water_app"
version = "0.1.0"
edition = "2021"
publish = false

[dependencies]
bytemuck = { version = "=1.25.2", features = ["min_const_generics"] }
nalgebra-glm = "=0.20.0"
wgpu = { version = "29", default-features = false, features = ["std", "wgsl"] }
