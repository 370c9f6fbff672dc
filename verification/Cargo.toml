[package]
name = "script_bridge"
version = "0.1.0"
edition = "2021"
publish = false

[dependencies]
boa_engine = "=0.17.3"
getrandom = { version = "=0.2.17", features = ["custom"] }
polywrap-wasm-rs = "=0.12.2"
rmp-serde = "=1.3.1"
rmpv = "=1.3.1"
serde = { version = "=1.0.229", features = ["derive"] }
serde_json = "=1.0.151"
