[package]
name = "site_patterns"
version = "0.1.0"
edition = "2021"
publish = false

[dependencies]
ndarray = "0.16"
image = { version = "0.25", default-features = false, features = ["bmp", "png", "jpeg"] }
rand = "0.8"
cursive = { version = "0.21", default-features = false, features = ["crossterm-backend"] }
