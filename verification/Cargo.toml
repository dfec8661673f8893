[package]
name = "tensor_compute"
version = "0.1.0"
edition = "2021"
publish = false

[dependencies]
wgpu = { version = "=30.0.1", features = ["spirv"] }
futures = "=0.3.34"
bytemuck = "=1.25.2"
rand = "=0.10.3"
