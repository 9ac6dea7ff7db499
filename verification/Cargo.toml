[package]
name = "id_compressor"
version = "0.1.0"
edition = "2021"
publish = false

[dependencies]
uuid = { version = "1", features = ["v4"] }
wasm-bindgen = "0.2"
