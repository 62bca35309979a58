[package]
name = "ui_composer"
version = "0.1.0"
edition = "2021"
publish = false

[dependencies]
bytemuck = { version = "=1.25.2", features = ["derive"] }
glyphon = "0.3"
tokio = { version = "=1.54.1", default-features = false, features = ["macros", "rt"] }
wgpu = "0.16"
winit = { version = "=0.28.7", default-features = false, features = ["x11"] }
