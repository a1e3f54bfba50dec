[package]
name = "hnsw"
version = "0.12.0"
edition = "2021"
publish = false

[dependencies]
ahash = { version = "0.8", default-features = false }
hashbrown = { version = "0.14", default-features = false }
libm = "0.2"
num-traits = { version = "0.2", default-features = false }
rand_core = { version = "0.6", default-features = false }
serde = { version = "1", features = ["derive"] }
space = "0.17"

[dev-dependencies]
bincode = "1.3"
memmap2 = "0.9"
rand = "0.8"
rand_pcg = { version = "0.3", features = ["serde1"] }
serde_json = "1"
