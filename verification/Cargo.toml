[package]
name = "walkshed"
version = "0.1.0"
edition = "2021"
publish = false

[dependencies]
anyhow = "1"
console_error_panic_hook = "0.1.7"
console_log = "1"
fast_paths = "1.0.0"
geo = "0.28"
geojson = "0.24"
log = "0.4"
rstar = "0.12"
serde = { version = "1", features = ["derive"] }
serde_json = "1"
serde-wasm-bindgen = "0.6"
wasm-bindgen = "0.2"
