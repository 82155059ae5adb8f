[package]
name = "move_ordering"
version = "0.1.0"
edition = "2021"
publish = false

[dependencies]
cozy-chess = "*"
