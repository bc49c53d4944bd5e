[package]
name = "perlin-noise"
version = "0.1.0"
edition = "2021"
publish = false

[dependencies]
bytemuck = "1"
png = "*"
pollster = "*"
pyo3 = "*"
wgpu = "*"
