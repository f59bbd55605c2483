[package]
name = "pixel_lighting"
version = "0.1.0"
edition = "2021"
publish = false

[dependencies]
wasm-bindgen = "=0.2.129"

[dev-dependencies]
libmath = "=0.2.1"
