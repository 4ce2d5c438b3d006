[package]
name = "yueliang"
version = "0.1.0"
edition = "2021"
publish = false

[dependencies]
midly = "0.5"
serde = { version = "1", features = ["derive"] }
parking_lot = "0.12"
xsynth-core = "*"
