[package]
name = "notepdf"
version = "0.1.0"
edition = "2021"
publish = false

[dependencies]
anyhow = "*"
clap = { version = "*", features = ["derive"] }
flate2 = "*"
image = { version = "*", default-features = false, features = ["png"] }
indicatif = "*"
rayon = "*"
walkdir = "*"
