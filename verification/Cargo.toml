[package]
name = "eluna"
version = "0.1.0"
edition = "2021"
publish = false

[dependencies]
bytemuck = { version = "=1.25.2", features = ["derive"] }
egui = "0.34.3"
egui-wgpu = "0.34.3"
egui-winit = { version = "0.34.3", default-features = false, features = ["x11"] }
image = { version = "=0.25.10", default-features = false, features = ["bmp", "gif", "ico", "jpeg", "png", "pnm", "qoi", "tga", "tiff", "webp"] }
pollster = "0.4"
wgpu = "29"
winit = { version = "0.30.13", default-features = false, features = ["rwh_06", "x11"] }
