[package]
name = "safety-profiler"
version = "0.1.0"
edition = "2021"
publish = false

[dependencies]
sv-parser = "=0.13.5"
nl-compiler = "=0.3.2"
safety-net = "=0.14.0"
safety-pass = { version = "=0.4.18", features = ["id"] }
