[package]
name = "rgg"
version = "0.1.0"
edition = "2021"
publish = false

[dependencies]
gamma = "=0.8.1"
meval = "=0.2.0"
rand = "=0.8.8"
serde = { version = "=1.0.229", features = ["derive"] }
serde_yaml = "=0.8.26"
log = "=0.4.34"
simplelog = "=0.9.0"
bevy = { version = "=0.8.1", default-features = false, features = ["bevy_asset", "render", "bevy_winit", "x11"] }
