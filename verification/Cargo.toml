[package]
name = "utxo_select"
version = "0.1.0"
edition = "2021"
publish = false

[dependencies]
utxo = "*"
wasm-bindgen = "*"
js-sys = "*"
