[package]
name = "serde_utils"
version = "0.1.0"
edition = "2021"

[dependencies]
serde = "0.8"
