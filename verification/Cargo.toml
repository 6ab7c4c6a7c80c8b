[package]
name = "svo_engine"
version = "0.1.0"
edition = "2021"
publish = false

[dependencies]
bytemuck = "=1.25.2"
glam = "=0.34.2"
pollster = "=1.0.1"
web-time = "=1.1.0"
wgpu = "=30.0.1"
winit = "=0.30.13"
