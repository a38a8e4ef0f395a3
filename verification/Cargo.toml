[package]
name = "tinkerfield"
version = "0.1.0"
edition = "2021"
publish = false

[dependencies]
bytemuck = { version = "1", features = ["derive"] }
png = "0.18"
pollster = "0.4"
wgpu = "24"
winit = "0.30"
