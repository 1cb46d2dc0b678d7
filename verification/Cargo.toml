[package]
name = "minesweeper_td"
version = "0.1.0"
edition = "2021"
publish = false

[dependencies]
rand = "0.8"
roots = "*"
bevy = { version = "0.8", default-features = false, features = ["bevy_asset", "bevy_winit", "render", "png", "x11"] }
bevy_rapier2d = "0.16"
bevy_prototype_lyon = "0.6"
bevy_asset_loader = "0.13"
