[package]
name = "ring_signature"
version = "0.1.0"
edition = "2021"
publish = false

[dependencies]
bnum = "=0.12.1"
lhash = { version = "=1.1.0", features = ["sha256"] }
sha2 = "=0.10.9"
aes = "=0.8.4"
ecb = "=0.1.2"
ckb-std = "=1.1.0"
