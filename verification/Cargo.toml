[package]
name = "hal_psbt"
version = "0.1.0"
edition = "2021"
publish = false

[dependencies]
bitcoin = "0.32"
clap = "2"
hex = "0.4"
serde = { version = "1", features = ["derive"] }
serde_json = "1"
