[package]
name = "rts_game"
version = "0.1.0"
edition = "2021"
publish = false

[dependencies]
bevy = { version = "=0.17.3", default-features = false }
bevy_input = { version = "=0.17.3", default-features = false, features = ["serialize"] }
directories = "=6.0.0"
image = { version = "=0.25.10", default-features = false, features = ["png"] }
ron = "=0.10.1"
serde = { version = "=1.0.229", features = ["derive"] }
serde_json = "=1.0.154"
