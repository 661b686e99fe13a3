[package]
name = "rasterizer"
version = "0.1.0"
edition = "2021"
publish = false

[dependencies]
image = { version = "=0.24.9", default-features = false, features = ["png", "jpeg"] }
jpeg-decoder = { version = "=0.3.2", default-features = false, features = ["platform_independent"] }
sdl2 = "=0.35.2"
