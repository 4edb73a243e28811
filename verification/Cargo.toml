[package]
name = "arc_overlay"
version = "0.1.0"
edition = "2021"
publish = false

[dependencies]
smash-arc = { version = "=0.6.0", default-features = false }
crc32fast = "*"
camino = "*"
serde = { version = "*", features = ["derive"] }
thiserror = "*"
parking_lot = "*"
lazy_static = "*"
