[package]
name = "js_runtime"
version = "0.1.0"
edition = "2021"
publish = false

[dependencies]
url = "2"
boa_engine = "0.21"
tokio = { version = "1", features = ["rt", "time"] }
