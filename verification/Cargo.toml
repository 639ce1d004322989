[package]
name = "nncombinator_cnn"
version = "0.1.0"
edition = "2021"
publish = false

[dependencies]
nncombinator = { version = "=0.9.8", default-features = false }
rayon = "=1.12.0"
