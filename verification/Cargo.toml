[package]
name = "nannou-sorting"
version = "0.1.0"
edition = "2021"
publish = false

[dependencies]
array-init = "2"
clap = { version = "4", features = ["derive"] }
raylib = "5"
