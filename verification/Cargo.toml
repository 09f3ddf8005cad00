[package]
name = "simittag"
version = "0.2.0"
edition = "2021"
publish = false

[dependencies]
png = "0.17"
rayon = "1"
serde_json = { version = "1", features = ["arbitrary_precision"] }
wasm-bindgen = "0.2"
futures = "0.3"
r2r = "0.9"
wasm-bindgen-rayon = "1"
