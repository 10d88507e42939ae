[package]
name = "wythoff"
version = "0.1.0"
edition = "2021"
publish = false

[dependencies]
nalgebra = "0.33"
macroquad = { version = "0.4", default-features = false }
