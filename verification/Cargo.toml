[package]
name = "dirdiff"
version = "0.1.0"
edition = "2021"
publish = false

[dependencies]
anyhow = "1"
clap = { version = "4", features = ["derive"] }
crossbeam-deque = "0.8"
crossbeam-utils = "0.8"
