[package]
name = "hdqtsp-lehmer"
version = "0.1.0"
edition = "2021"
publish = false

[dependencies]
nalgebra = { version = "0.32", features = ["serde-serialize"] }
rand = "0.8"
serde = { version = "1.0", features = ["derive"] }
serde_json = "1.0"
serde-wasm-bindgen = "0.6"
wasm-bindgen = "0.2"
js-sys = "0.3"
