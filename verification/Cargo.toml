[package]
name = "gossipnet"
version = "0.1.0"
edition = "2021"
publish = false

[dependencies]
libp2p = { version = "*", default-features = false, features = ["ed25519"] }
libp2p-identity = { version = "*", default-features = false, features = ["ed25519", "rand", "peerid"] }
