[package]
name = "runaway_datastructures"
version = "0.1.0"
edition = "2021"
publish = false

[dependencies]
bitvec = "=1.1.1"

[dev-dependencies]
rayon = "*"
