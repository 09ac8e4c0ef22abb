[package]
name = "txnet"
version = "0.1.0"
edition = "2021"
publish = false

[dependencies]
rand = "0.8"
csv = "1"
serde = { version = "1", features = ["derive"] }
plotters = "0.3"
