[package]
name = "lutnet"
version = "0.1.0"
edition = "2021"
publish = false

[dependencies]
bitvec = "1"
rand = "0.9"
rand_xoshiro = "*"
rayon = "1"
csv = "1"
config = "*"
serde = { version = "1", features = ["derive"] }
clap = { version = "4", features = ["derive"] }
