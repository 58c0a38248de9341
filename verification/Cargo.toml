[package]
name = "treegraph_consensus"
version = "0.1.0"
edition = "2021"
publish = false

[dependencies]
slab = "0.4"
hibitset = "0.6"
ethereum-types = "0.14"
rlp = "0.4"
parking_lot = "0.12"
anyhow = "1"
serde = { version = "1", features = ["derive"] }
rayon = "1"
