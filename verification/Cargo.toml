[package]
name = "greentic-cap-runtime"
version = "0.1.0"
edition = "2021"
publish = false

[dependencies]
serde = { version = "=1.0.229", features = ["derive"] }
serde_cbor = "=0.11.2"
serde_json = "=1.0.154"
sha2 = "=0.10.9"
jsonschema = { version = "=0.60.2", default-features = false }
schemars = "=1.2.3"
thiserror = "=2.0.21"
wasmtime = { version = "=44.0.3", default-features = false, features = ["component-model", "runtime"] }
