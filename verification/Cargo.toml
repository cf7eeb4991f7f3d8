[package]
name = "imageflow"
version = "0.1.0"
edition = "2021"
publish = false

[dependencies]
base64 = "=0.13.1"
sha2 = "=0.10.9"
num = "=0.4.3"
chrono = "=0.4.45"
unicase = "=2.10.0"
time = "=0.1.45"
