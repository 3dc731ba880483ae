[package]
name = "iguagile_engine"
version = "0.1.0"
edition = "2021"
publish = false

[dependencies]
anyhow = "1"
bitmaps = "3"
mio = { version = "*", features = ["os-poll", "net"] }
quiche = "*"
redis = "*"
ring = "*"
serde_json = "1"
