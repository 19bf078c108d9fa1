[package]
name = "photonsim"
version = "0.1.0"
edition = "2021"
publish = false

[dependencies]
anyhow = "1"
arc-swap = "1"
arrow = { version = "*", default-features = false }
boxcar = "0.2"
chrono = "0.4"
ctrlc = "3"
nalgebra = "*"
parquet = { version = "*", default-features = false, features = ["arrow"] }
rand = "0.9"
rayon = "1"
smallvec = "1"
