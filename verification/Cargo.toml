[package]
name = "voxel_world"
version = "0.1.0"
edition = "2021"
publish = false

[dependencies]
serde_json = "=1.0.154"
noise = "=0.9.0"
image = { version = "=0.25.10", default-features = false, features = ["png"] }
bevy = { version = "=0.17.3", default-features = false, features = ["bevy_pbr", "bevy_ui", "bevy_window", "bevy_render", "bevy_core_pipeline", "bevy_asset", "bevy_text"] }
