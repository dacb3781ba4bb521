[package]
name = "bevyjam"
version = "0.1.0"
edition = "2021"
publish = false

[dependencies]
rand = "0.8"
bevy = { version = "0.6", default-features = false }
heron = { version = "1", default-features = false, features = ["2d"] }
