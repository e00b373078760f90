[package]
name = "nfsembed"
version = "0.1.0"
edition = "2021"
publish = false

[dependencies]
async-trait = "0.1"
bytes = "1"
rand = "0.8"
sha2 = "0.10"
thiserror = "1"
tokio = { version = "1", features = ["rt", "sync"] }
