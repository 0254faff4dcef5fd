[package]
name = "serializer"
version = "0.1.0"
edition = "2021"
publish = false

[dependencies]
serde = { version = "*", features = ["derive"] }
serde-wasm-bindgen = "*"
wasm-bindgen = "*"
rand = "*"
colored = "*"
futures = "*"
web-time = "*"
