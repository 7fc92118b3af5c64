[package]
name = "minigit"
version = "0.1.0"
edition = "2021"
publish = false

[dependencies]
sha1 = "0.10"
flate2 = "1"
hex = "0.4"
rand = "0.9"
anyhow = "1"
clap = { version = "4", features = ["derive"] }
reqwest = { version = "0.12", default-features = false, features = ["blocking"] }
