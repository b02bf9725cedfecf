[package]
name = "diamond"
version = "0.1.0"
edition = "2021"
publish = false

[dependencies]
burn = { version = "0.19", default-features = false, features = ["ndarray", "autodiff"] }
chrono = "=0.4.45"
csv = "=1.4.0"
serde_json = "=1.0.154"
ureq = "=3.5.1"
