[package]
name = "rt"
version = "0.1.0"
edition = "2021"
publish = false

[dependencies]
rand = "0.7"
num = "0.4"
image = { version = "0.23", default-features = false, features = ["png", "jpeg"] }
