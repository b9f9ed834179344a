[package]
name = "akius"
version = "0.1.0"
edition = "2021"
publish = false

[dependencies]
rand = "=0.9.5"
serde = { version = "=1.0.229", features = ["derive"] }
serde_json = "=1.0.154"
bevy = { version = "=0.18.1", default-features = false, features = ["bevy_state", "keyboard", "mouse", "touch"] }
bevy_rapier3d = { version = "=0.34.0", default-features = false, features = ["dim3"] }
