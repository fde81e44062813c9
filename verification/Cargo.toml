[package]
name = "wasm-migrate"
version = "0.1.0"
edition = "2021"
publish = false

[dependencies]
anyhow = "=1.0.104"
affinity = "=0.1.2"
clap = { version = "=4.6.7", features = ["derive"] }
rustix = { version = "=1.1.6", features = ["time"] }
serde = { version = "=1.0.229", features = ["derive"] }
wasm-encoder = { version = "=0.226.0", features = ["wasmparser"] }
wasm-tools = { version = "=1.263.0", default-features = false }
wasmparser = "=0.226.0"
wasmprinter = "=0.226.0"
wasmtime = "=30.0.2"
wasmtime-wasi = "=30.0.2"
