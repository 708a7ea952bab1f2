[package]
name = "meshi"
version = "0.1.0"
edition = "2021"
publish = false

[dependencies]
glam = "0.29.3"
image = { version = "0.25.10", default-features = false, features = ["png"] }
egui = "0.31.1"
