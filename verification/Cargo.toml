[package]
name = "rust-sokoban"
version = "0.1.0"
edition = "2021"
publish = false

[dependencies]
hecs = "0.10"
ggez = { version = "0.9", default-features = false }
