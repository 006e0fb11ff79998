[package]
name = "fil_gadgets"
version = "0.1.0"
edition = "2021"
publish = false

[dependencies]
sha2 = "=0.10.9"
hex = "=0.4.3"
serde = { version = "=1.0.229", features = ["derive"] }
ff = "=0.12.1"
blstrs = "=0.6.2"
bellperson = "=0.24.1"
halo2_proofs = "=0.2.0"
pasta_curves = "=0.4.1"
merkletree = "=0.22.1"
generic-array = "=0.14.7"

[dev-dependencies]
rand_xorshift = "=0.3.0"
rand_core = "=0.6.4"
