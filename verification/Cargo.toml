[package]
name = "gridiron"
version = "0.1.0"
edition = "2021"
publish = false

[dependencies]
ciborium = "*"
clap = { version = "*", features = ["derive"] }
core_affinity = "*"
crossbeam-channel = "*"
rayon = "*"
serde = { version = "*", features = ["derive"] }
