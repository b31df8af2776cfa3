[package]
name = "enigma_cipher"
version = "0.1.0"
edition = "2021"
publish = false

[dependencies]
rand = "0.9"
serde_json = "1"
clap = "4"
log = "0.4"
