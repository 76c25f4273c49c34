[package]
name = "ciris-game-engine-core"
version = "0.1.0"
edition = "2021"
publish = false

[dependencies]
arrayvec = "=0.7.8"
sha2 = "=0.10.9"
rand_chacha = "=0.9.0"
rand_core = "=0.9.5"
serde = { version = "=1.0.229", features = ["derive"] }
serde_json = "=1.0.154"
libm = "=0.2.16"
image = { version = "0.25", default-features = false, features = ["png"] }
base64 = "0.22"
