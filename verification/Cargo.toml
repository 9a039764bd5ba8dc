[package]
name = "humanize"
version = "0.1.0"
edition = "2021"
publish = false

[dependencies]
serde_core = "*"
