[package]
name = "blob_fetch"
version = "0.1.0"
edition = "2021"
publish = false

[dependencies]
anyhow = "*"
console = "*"
indicatif = "*"
iroh-bytes = "=0.5.0"
iroh-io = "*"
range-collections = "*"
tokio = { version = "*", features = ["full"] }
tracing = "*"
