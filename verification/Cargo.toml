[package]
name = "poseidon_merkle"
version = "0.1.0"
edition = "2021"
publish = false

[dependencies]
poseidon-rs = "0.0.5"
ff_ce = "0.11"
sha2 = "0.10"
