[package]
name = "compositor"
version = "0.1.0"
edition = "2021"
publish = false

[dependencies]
futures = "*"
futures-intrusive = "*"
png = "*"
pollster = "*"
wgpu = { version = "*", default-features = false, features = ["wgsl"] }
