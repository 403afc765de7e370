[package]
name = "isle"
version = "0.1.0"
edition = "2021"
publish = false

[dependencies]
bytemuck = { version = "1", features = ["derive"] }
rand = "0.8"
vulkano = "0.31"
vulkano-shaders = "0.31"
vulkano-win = "0.31"
winit = "0.27"
