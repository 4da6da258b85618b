[package]
name = "bad-ideas"
version = "0.1.0"
edition = "2021"
publish = false

[dependencies]
anyhow = "=1.0.104"
futures = "=0.3.34"
wasmtime = { version = "45", features = ["component-model", "component-model-async"] }
wasmtime-wasi = "45"
wit-bindgen = { version = "0.57", features = ["async-spawn"] }
