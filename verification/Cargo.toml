[package]
name = "nomai_engine"
version = "0.1.0"
edition = "2021"
publish = false

[dependencies]
serde = { version = "=1.0.229", features = ["derive"] }
serde_json = "=1.0.154"
blake3 = "=1.8.7"
anyhow = "=1.0.104"
thiserror = "=2.0.21"
tracing = "=0.1.44"
rapier2d = "=0.22.0"
wgpu = "24"
winit = "0.30"
pollster = "0.4"
bytemuck = "1"
bytemuck_derive = "1"
