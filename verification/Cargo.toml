[package]
name = "ir_remote"
version = "0.1.0"
edition = "2021"
publish = false

[dependencies]
anyhow = "1"
bitvec = "=1.0.1"
ordered_hash_map = "0.4.0"
promptuity = "0.0.5"
rppal = "0.17.1"
serde = { version = "1", features = ["derive"] }
simple-signal = "*"
spin_sleep = "1"
