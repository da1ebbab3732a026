[package]
name = "svg_converter"
version = "0.1.0"
edition = "2021"
publish = false

[dependencies]
anyhow = "1"
base64 = "0.21"
clap = { version = "4", features = ["derive"] }
image = "0.24"
imageproc = "0.23"
resvg = "0.35"
roxmltree = "0.18"
svg = "0.13"
wasm-bindgen = "0.2"
