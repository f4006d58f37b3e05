[package]
name = "protobuf_json"
version = "0.1.0"
edition = "2021"
publish = false

[dependencies]
base64 = "=0.22.1"
bytes = "=1.12.1"
itoa = "=1.0.18"
jiter = { version = "=0.18.0", default-features = false, features = ["num-bigint"] }
pyo3 = { version = "=0.30.1", default-features = false, features = ["macros", "bytes"] }
ryu = "=1.0.23"
