[package]
name = "baals"
version = "0.1.0"
edition = "2021"
publish = false

[dependencies]
ed25519-dalek = "2"
sha2 = "0.10"
hex = "0.4"
rand = "0.8"
serde = { version = "1", features = ["derive"] }
bincode = "1"
clap = { version = "4", features = ["derive"] }
sled = "0.34"
tokio = { version = "1", features = ["net", "rt", "time", "io-util", "macros", "rt-multi-thread"] }
async-trait = "0.1"

[dev-dependencies]
