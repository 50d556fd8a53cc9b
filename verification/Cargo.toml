[package]
name = "rustcad"
version = "0.1.0"
edition = "2021"
publish = false

[dependencies]
anyhow = "1"
bytemuck = { version = "1", features = ["derive"] }
eframe = { version = "0.34.3", default-features = false, features = ["wgpu", "x11"] }
egui = { version = "0.34.3", default-features = false, features = ["default_fonts"] }
egui-wgpu = { version = "0.34.3", default-features = false }
env_logger = { version = "0.11", default-features = false }
glam = "0.33"
nalgebra = "0.35"
ron = "0.10"
serde = { version = "1", features = ["derive"] }
slotmap = { version = "1.1", features = ["serde"] }
thiserror = "2"
truck-meshalgo = { version = "=0.4.0", default-features = false, features = ["tessellation"] }
truck-modeling = "=0.6.0"
