[package]
name = "image_quant"
version = "0.1.0"
edition = "2021"
publish = false

[dependencies]
wasm-bindgen = "=0.2.129"

[dev-dependencies]
imagequant = "=4.4.1"
