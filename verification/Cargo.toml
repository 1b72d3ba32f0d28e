[package]
name = "arrayniac"
version = "0.1.0"
edition = "2021"
publish = false

[dependencies]
sonic-rs = "*"
