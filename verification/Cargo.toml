[package]
name = "zvault"
version = "0.1.0"
edition = "2021"
publish = false

[dependencies]
blake2-rfc = "0.2"
murmurhash3 = "*"
regex = "1"
chrono = "0.4"
sodiumoxide = "*"
squash-sys = "*"
serde = { version = "1", features = ["derive"] }
serde_yaml = "*"
clap = { version = "4", features = ["derive"] }
log = "0.4"
