[package]
name = "sdp"
version = "0.1.0"
edition = "2021"
publish = false

[dependencies]
bytes = "=1.12.1"
tokio = { version = "=1.54.1", features = ["rt"] }
tracing = "=0.1.44"
