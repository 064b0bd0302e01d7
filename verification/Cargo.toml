[package]
name = "seagul"
version = "0.1.0"
edition = "2021"
publish = false

[dependencies]
clap = "2"
colored = "*"
image = { version = "*", default-features = false, features = ["png", "jpeg", "bmp"] }
