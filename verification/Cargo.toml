[package]
name = "mosaic"
version = "0.1.0"
edition = "2021"
publish = false

[dependencies]
image = "=0.25.10"
clap = { version = "=4.6.7", features = ["derive"] }
indicatif = "=0.18.6"
num_cpus = "=1.17.0"
rayon = "=1.12.0"
