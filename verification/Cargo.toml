[package]
name = "grid_tactics"
version = "0.1.0"
edition = "2021"
publish = false

[dependencies]
priority-queue = "=1.4.0"
rand = "=0.8.8"
serde = { version = "=1.0.229", features = ["derive"] }
serde_json = "=1.0.154"
bevy = { version = "=0.8.1", default-features = false, features = ["bevy_asset", "render", "bevy_winit", "png", "x11"] }
