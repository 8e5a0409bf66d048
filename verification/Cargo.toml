[package]
name = "gossip_dag"
version = "0.1.0"
edition = "2021"
publish = false

[dependencies]
tiny-keccak = "1"
rand = "0.8"
serde = { version = "1", features = ["derive"] }
sha3 = "0.10"
ed25519-dalek = { version = "2", features = ["rand_core"] }
maidsafe_utilities = "*"
