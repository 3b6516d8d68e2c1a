[package]
name = "bubble_simulation"
version = "0.1.0"
edition = "2021"
publish = false

[dependencies]
anyhow = "1"
ash = { version = "0.38", default-features = false }
bytemuck = { version = "1", features = ["derive"] }
clap = { version = "4", features = ["derive"] }
egui = { version = "0.34", default-features = false, features = ["default_fonts"] }
egui-wgpu = { version = "0.34", default-features = false }
egui-winit = { version = "0.34", default-features = false, features = ["x11"] }
env_logger = { version = "0.11", default-features = false }
glam = "0.30"
log = "0.4"
png = "*"
pollster = "0.4"
rand = { version = "0.9", default-features = false, features = ["std"] }
rand_pcg = "0.9"
wgpu = { version = "29", default-features = false, features = ["std", "parking_lot", "vulkan", "wgsl"] }
winit = { version = "0.30", default-features = false, features = ["x11", "rwh_06"] }
