[package]
name = "luaurc"
version = "0.1.0"
edition = "2021"
publish = false

[dependencies]
anyhow = "=1.0.104"
full_moon = { version = "=2.2.0", features = ["luau"] }
log = "0.4"
serde = { version = "=1.0.229", features = ["derive"] }
serde_json = "=1.0.154"

[dev-dependencies]
pathdiff = "0.2"
