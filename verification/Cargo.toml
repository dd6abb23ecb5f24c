[package]
name = "doxsync"
version = "0.1.0"
edition = "2021"
publish = false

[dependencies]
blake3 = "1"
half = "2"
js-sys = "0.3"
wasm-bindgen = "0.2"
