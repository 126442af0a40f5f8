[package]
name = "road_world"
version = "0.1.0"
edition = "2021"
publish = false

[dependencies]
nalgebra = "0.33"
image = { version = "0.25", default-features = false, features = ["png"] }
