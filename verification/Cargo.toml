[package]
name = "lumadisk"
version = "0.1.0"
edition = "2021"
publish = false

[dependencies]
blake3 = "=1.8.7"
jwalk = "=0.8.1"
rayon = "1"
