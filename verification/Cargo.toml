[package]
name = "enchant_calc"
version = "0.1.0"
edition = "2021"
publish = false

[dependencies]
itertools = "*"
serde = { version = "*", features = ["derive"] }
serde_json = "*"
lazy_static = "*"
parking_lot = "*"
