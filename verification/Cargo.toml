[package]
name = "ltr"
version = "0.1.0"
edition = "2021"
publish = false

[dependencies]
smallvec = "1"
im = "15"
tokio = { version = "1", features = ["rt-multi-thread", "macros", "sync", "time"] }
tokio-util = "0.7"
pyo3 = "*"
