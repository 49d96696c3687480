[package]
name = "semco_core"
version = "0.1.0"
edition = "2021"
publish = false

[dependencies]
blake3 = "=1.8.7"
rand = "=0.8.8"
serde = { version = "=1.0.229", features = ["derive"] }
bincode = "=1.3.3"
thiserror = "=1.0.69"
tokio = { version = "=1.54.1", features = ["rt", "sync", "time"] }
rust-bert = { version = "=0.23.0", default-features = false }
tch = "=0.17.0"
tokenizers = { version = "=0.23.2", default-features = false, features = ["fancy-regex"] }
