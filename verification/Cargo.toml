[package]
name = "bucket_msm"
version = "0.1.0"
edition = "2021"
publish = false

[dependencies]
ark-bls12-381 = "=0.6.0"
ark-ec = "=0.6.0"
ark-ff = "=0.6.0"

[dev-dependencies]
ark-std = "=0.6.0"
