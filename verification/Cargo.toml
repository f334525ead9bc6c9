[package]
name = "merkle_forest"
version = "0.1.0"
edition = "2021"
publish = false

[dependencies]
plonky2_maybe_rayon = { version = "*", default-features = false, features = ["parallel"] }
bytemuck = { version = "1", features = ["derive"] }
serde = { version = "1", features = ["derive"] }
log = "0.4"
anyhow = "1"
futures = "0.3"
once_cell = "1"
pollster = "0.4"
wasm-bindgen = "0.2"
wasm-bindgen-futures = "0.4"
js-sys = "0.3"
web-sys = { version = "0.3", features = ["console"] }
wgpu = { version = "25", default-features = false, features = ["wgsl", "webgpu"] }
