[package]
name = "sintax"
version = "0.1.0"
edition = "2021"
publish = false

[dependencies]
zstd = "*"
rand = "*"
bio = "*"
clap = { version = "*", features = ["derive"] }
rayon = "*"
