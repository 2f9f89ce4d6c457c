[package]
name = "swiss_cheese"
version = "0.1.0"
edition = "2021"
publish = false

[dependencies]
bevy = { version = "=0.19.1", default-features = false, features = ["std", "bevy_pbr", "bevy_winit", "x11", "multi_threaded", "tonemapping_luts", "ktx2", "zstd_rust"] }
