[package]
name = "secret_sharing"
version = "0.1.0"
edition = "2021"
publish = false

[dependencies]
isochronous_finite_fields = "*"
rand = "0.8"
rand_core = "0.6"
