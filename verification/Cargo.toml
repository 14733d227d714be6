[package]
name = "ingrid_core"
version = "0.1.0"
edition = "2021"
publish = false

[dependencies]
clap = { version = "4", features = ["derive"] }
fancy-regex = "0.11"
float-ord = "0.3"
rand = { version = "0.8", features = ["small_rng"] }
serde = { version = "1", features = ["derive"] }
smallvec = { version = "1", features = ["const_generics", "union"] }
unicode-normalization = "0.1"
wasm-bindgen = "0.2"
wasm-bindgen-futures = "0.4"
web-sys = { version = "0.3", features = ["console", "Response", "Window"] }

[dev-dependencies]
serde_json = "1"
