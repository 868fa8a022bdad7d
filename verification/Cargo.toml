[package]
name = "devker"
version = "0.1.0"
edition = "2021"
publish = false

[dependencies]
libflate = "2"
rand = "0.8"
