[package]
name = "mymesi"
version = "0.1.0"
edition = "2021"
publish = false

[dependencies]
async-std = { version = "1", features = ["unstable"] }
sled = "0.34"

[dev-dependencies]
rand = "0.8"
rand_distr = "0.4"
