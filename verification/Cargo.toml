[package]
name = "mu_torere"
version = "0.1.0"
edition = "2021"
publish = false

[dependencies]
rand = "0.9"
bevy = { version = "0.17", default-features = false, features = ["bevy_window", "bevy_state"] }
