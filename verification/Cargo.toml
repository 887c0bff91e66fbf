[package]
name = "customize_nft"
version = "0.1.0"
edition = "2021"
publish = false

[dependencies]
elrond-wasm = "=0.34.1"
