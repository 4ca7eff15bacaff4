[package]
name = "emoji_translator"
version = "0.1.0"
edition = "2021"
publish = false

[dependencies]
serde_json = "=1.0.151"
wasm-bindgen = "=0.2.92"
