[package]
name = "julia_set"
version = "0.1.0"
edition = "2021"
publish = false

[dependencies]
colorgrad = "0.6"
macroquad = { version = "0.4", default-features = false }
