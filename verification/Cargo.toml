[package]
name = "core_mempool"
version = "0.1.0"
edition = "2021"
publish = false

[dependencies]
anyhow = "1"
aptos-sdk = "*"
arr_macro = "*"
async-trait = "0.1"
futures = "0.3"
rand = "0.7"
