[package]
name = "cifras_core"
version = "0.1.0"
edition = "2021"
publish = false

[dependencies]
rand = "0.8"
colored = "2"
console = "0.15"
wasm-bindgen = "0.2"
