[package]
name = "differential_dataflow"
version = "0.1.0"
edition = "2021"
publish = false

[dependencies]
timely = "0.8"
serde = { version = "1", features = ["derive"] }
