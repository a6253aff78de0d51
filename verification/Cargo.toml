[package]
name = "rend3"
version = "0.3.0"
edition = "2021"
publish = false

[dependencies]
glam = "=0.20.5"
handlebars = "=4.5.0"
parking_lot = "=0.12.5"
rust-embed = { version = "=6.8.1", features = ["interpolate-folder-path"] }
serde = { version = "=1.0.229", features = ["derive"] }
wgpu = { version = "=0.12.0", features = ["spirv"] }
