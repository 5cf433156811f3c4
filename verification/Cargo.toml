[package]
name = "subroutines"
version = "0.1.0"
edition = "2021"
publish = false

[dependencies]
ark-bls12-381 = "0.5"
ark-ec = "0.5"
ark-ff = "0.5"
ark-poly = "0.5"
ark-serialize = { version = "0.5", features = ["derive"] }
ark-std = "0.5"
libc = "0.2"
