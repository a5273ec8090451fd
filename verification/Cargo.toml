[package]
name = "risenlab"
version = "0.1.0"
edition = "2021"
publish = false

[dependencies]
flate2 = "*"
ddsfile = "*"
texpresso = "*"
anyhow = "*"
base64 = "*"
clap = { version = "*", features = ["derive"] }
serde = { version = "*", features = ["derive"] }
serde_json = "*"
image = { version = "*", default-features = false, features = ["png", "jpeg", "webp"] }
