[package]
name = "nesstar-core"
version = "0.1.0"
edition = "2021"
publish = false

[dependencies]
quick-xml = "0.37"
memmap2 = "0.9"
csv = "1"
serde = { version = "1", features = ["derive"] }
serde_json = "1"
arrow-array = "53"
arrow-schema = "53"
parquet = { version = "53", default-features = false, features = ["arrow"] }
wasm-bindgen = "0.2"
js-sys = "0.3"
serde-wasm-bindgen = "0.6"
