[package]
name = "lowpoly"
version = "0.1.0"
edition = "2021"
publish = false

[dependencies]
image = { version = "0.24", default-features = false, features = ["jpeg", "png"] }
rand = "0.8"
rand_distr = "0.4"
spade = "1.8"
