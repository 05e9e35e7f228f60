[package]
name = "foyer_memory"
version = "0.1.0"
edition = "2021"
publish = false

[dependencies]
anyhow = "1"
cmsketch = "0.2"
parking_lot = "0.12"
serde = { version = "1", features = ["derive"] }
slab = "0.4"
tokio = { version = "1", default-features = false, features = ["sync"] }
