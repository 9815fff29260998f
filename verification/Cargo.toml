[package]
name = "dig-coinstore"
version = "0.1.0"
edition = "2021"
publish = false

[dependencies]
chia-protocol = "=0.26.0"
chia-sha2 = "=0.26.0"
bincode = "=1.3.3"
serde = { version = "=1.0.229", features = ["derive"] }
heed = "=0.20.5"
thiserror = "=2.0.21"

[dev-dependencies]
tempfile = "=3.27.0"
parking_lot = "=0.12.5"
