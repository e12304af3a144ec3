[package]
name = "verkle_tree"
version = "0.1.0"
edition = "2021"
publish = false

[dependencies]
ark-bls12-381 = "=0.4.0"
ark-ec = "=0.4.2"
ark-ff = "=0.4.2"
ark-poly = "=0.4.2"
kzg-commitment = "=0.1.3"
num-bigint = "=0.4.8"
pairing-plus = "=0.19.0"
rand = "=0.8.8"
