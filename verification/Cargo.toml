[package]
name = "lumen_runtime"
version = "0.1.0"
edition = "2021"
publish = false

[dependencies]
anyhow = "*"
im = "*"
num-bigint = "*"
num-traits = "*"
panic-control = "*"
wasm-bindgen = "*"
web-sys = { version = "*", features = ["Window", "DomException"] }

[dev-dependencies]
proptest = { version = "*", default-features = false, features = ["std"] }
