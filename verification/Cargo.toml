[package]
name = "accman"
version = "0.1.0"
edition = "2021"
publish = false

[dependencies]
aes-gcm = "0.10"
chrono = { version = "0.4", default-features = false, features = ["clock"] }
clap = { version = "4", features = ["derive"] }
hex = "0.4"
rand = "0.8"
regex = "1"
thiserror = "1"
