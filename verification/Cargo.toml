[package]
name = "vctrees"
version = "0.1.0"
edition = "2021"
publish = false

[dependencies]
ark-bn254 = "=0.5.0"
ark-ec = "=0.5.0"
ark-ff = "=0.5.0"
ark-poly = "=0.5.0"
ark-std = "=0.5.0"
keccak-asm = "=0.1.9"
rand = "=0.10.3"
clap = { version = "=4.6.7", features = ["derive"] }
