[package]
name = "nnet"
version = "0.1.0"
edition = "2021"
publish = false

[dependencies]
bincode = "1"
byteorder = "1"
flate2 = "1"
nalgebra = { version = "*", features = ["serde-serialize", "rand"] }
serde = { version = "1", features = ["derive"] }
serde_derive = "1"
