[package]
name = "wisard"
version = "0.1.0"
edition = "2021"
publish = false

[dependencies]
bitvec = { version = "1", features = ["serde"] }
bloom = "0.3"
num-traits = "0.2"
rand = "0.8"
rand_xoshiro = "0.6"
serde = { version = "1", features = ["derive"] }
