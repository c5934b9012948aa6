[package]
name = "wasmtea"
version = "0.1.0"
edition = "2021"
publish = false

[dependencies]
pulldown-cmark = "=0.13.6"
serde = { version = "=1.0.229", features = ["derive"] }
serde_json = "=1.0.154"
structopt = "=0.3.26"
wasm-bindgen = "=0.2.130"
