[package]
name = "sjovt"
version = "0.1.0"
edition = "2021"
publish = false

[dependencies]
bit-vec = "=0.6.3"
queues = "=1.1.0"
rand = "=0.8.8"
bevy = { version = "=0.6.1", default-features = false, features = ["render", "bevy_winit", "png", "x11"] }
bevy_prototype_lyon = "=0.4.0"
bevy_rapier2d = "=0.12.1"
rapier2d = "=0.12.0-alpha.0"
bevy-inspector-egui = { version = "=0.8.2", default-features = false }
bevy_screen_diags = "=0.3.0"
