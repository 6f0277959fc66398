[package]
name = "ascacou"
version = "0.1.0"
edition = "2021"
publish = false

[dependencies]
clap = { version = "4", features = ["derive"] }
indextree = "4"
rand = "0.9"
