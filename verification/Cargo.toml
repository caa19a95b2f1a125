[package]
name = "mlpcs"
version = "0.1.0"
edition = "2021"
publish = false

[dependencies]
ark-bls12-381 = "=0.4.0"
ark-ec = "=0.4.2"
ark-ff = "=0.4.2"
ark-poly = "=0.4.2"
ark-serialize = { version = "=0.4.2", features = ["derive"] }
ark-std = "=0.4.0"
merlin = "3"
rayon = "=1.12.0"
