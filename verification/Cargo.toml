[package]
name = "mapquant"
version = "0.1.0"
edition = "2021"
publish = false

[dependencies]
image = "*"
flate2 = "*"
serde_json = "*"
clap = { version = "*", features = ["derive"] }
anyhow = "*"
