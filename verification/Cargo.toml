[package]
name = "porcupine"
version = "0.1.0"
edition = "2021"
publish = false

[dependencies]
rayon = "1"
rustc-hash = "2"
smallvec = "1"
