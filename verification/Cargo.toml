[package]
name = "iso80s"
version = "0.1.0"
edition = "2021"
publish = false

[dependencies]
bevy = { version = "=0.9.1", default-features = false, features = ["bevy_asset", "bevy_core_pipeline", "bevy_render", "bevy_sprite", "bevy_winit", "png", "x11"] }
bevy_egui = { version = "=0.17.1", default-features = false, features = ["default_fonts"] }
bevy-inspector-egui = { version = "0.14", default-features = false }
bevy_mouse_tracking_plugin = "=0.5.3"
clap = { version = "=3.2.25", features = ["derive"] }
itertools = "=0.10.5"
lazy_static = "=1.5.1"
