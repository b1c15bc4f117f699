[package]
name = "earth"
version = "0.1.0"
edition = "2021"
publish = false

[dependencies]
argon2 = { version = "0.5", features = ["std"] }
base64 = "0.22"
mdns-sd = "0.11"
rpassword = "7"
sha2 = "0.10"
