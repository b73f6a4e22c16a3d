[package]
name = "qoi_codec"
version = "0.1.0"
edition = "2021"
publish = false

[dependencies]
clap = { version = "4", features = ["derive"] }
image = "0.25"
indicatif = { version = "0.17", features = ["rayon"] }
rayon = "1"
