[package]
name = "simplex"
version = "0.1.0"
edition = "2021"
publish = false

[dependencies]
sprs = "=0.7.1"

[dev-dependencies]
rand = "=0.7.3"
rand_pcg = "=0.2.1"
