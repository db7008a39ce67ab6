[package]
name = "voy"
version = "0.1.0"
edition = "2021"
publish = false

[dependencies]
kiddo = "=2.1.2"
