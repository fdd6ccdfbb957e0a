[package]
name = "ragu"
version = "0.1.0"
edition = "2021"
publish = false

[dependencies]
ff = "=0.14.0"
pasta_curves = { version = "=0.6.1", features = ["deferred"] }
rand = "=0.10.3"
