[package]
name = "fractal_tiles"
version = "0.1.0"
edition = "2021"
publish = false

[dependencies]
ash = "0.38"
indexmap = "2"
smallvec = "1"
vulkano = "0.35"
vulkano-shaders = "0.35"
winit = "0.30"
