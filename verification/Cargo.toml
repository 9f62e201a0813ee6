[package]
name = "ablations"
version = "0.1.0"
edition = "2021"
publish = false

[dependencies]
clap = { version = "=4.6.7", features = ["derive"] }
faer = "=0.20.2"
rand = "=0.8.8"
rand_chacha = "=0.3.1"
rand_distr = "=0.4.3"
rayon = "=1.12.0"
serde = { version = "=1.0.229", features = ["derive"] }
serde_json = "=1.0.154"
