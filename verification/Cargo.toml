[package]
name = "platform_spawn"
version = "0.1.0"
edition = "2021"
publish = false

[dependencies]
rand = "0.9"
compute = "0.2"
bevy = { version = "0.16", default-features = false, features = ["std", "bevy_asset", "bevy_color", "bevy_core_pipeline", "bevy_render", "bevy_sprite", "bevy_state", "bevy_window", "bevy_winit", "x11", "png"] }
