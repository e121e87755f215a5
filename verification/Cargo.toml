[package]
name = "workpool"
version = "0.1.0"
edition = "2021"
publish = false

[dependencies]
clap = { version = "3", features = ["derive"] }
sys-info = "0.9"
