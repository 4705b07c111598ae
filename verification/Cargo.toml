[package]
name = "perple"
version = "0.1.0"
edition = "2021"
publish = false

[dependencies]
image = "*"
ndarray = "*"
raqote = { version = "*", default-features = false }
ort = "=2.0.0-rc.13"
