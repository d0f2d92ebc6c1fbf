[package]
name = "mean_image"
version = "0.1.0"
edition = "2021"
publish = false

[dependencies]
anyhow = "1"
clap = { version = "4", features = ["derive"] }
crc = "1.8"
image = { version = "0.23", default-features = false, features = ["png", "jpeg", "gif", "bmp"] }
noise = { version = "0.6", default-features = false }
rand = "0.7"
