[package]
name = "advice_injectors"
version = "0.1.0"
edition = "2021"
publish = false

[dependencies]
miden-crypto = "0.5"
winter-prover = "0.6"
