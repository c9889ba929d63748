[package]
name = "converter-core"
version = "0.1.0"
edition = "2021"
publish = false

[dependencies]
serde_json = { version = "1", features = ["preserve_order"] }
toml = { version = "0.8", features = ["preserve_order"] }
wasm-bindgen = "0.2"
console_error_panic_hook = "0.1"
