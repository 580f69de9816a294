[package]
name = "private_count"
version = "0.1.0"
edition = "2021"
publish = false

[dependencies]
image = { version = "*", default-features = false, features = ["png"] }
imageproc = { version = "*", default-features = false }
rayon = "*"
serde_json = "*"
tfhe = { version = "*", features = ["shortint"] }
