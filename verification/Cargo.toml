[package]
name = "ability_game"
version = "0.1.0"
edition = "2021"
publish = false

[dependencies]
bevy = { version = "0.8", default-features = false, features = ["render", "animation", "bevy_asset", "bevy_scene", "png"] }
bevy_rapier3d = "0.16"
gltf = "1"
