[package]
name = "victor_db"
version = "0.1.0"
edition = "2021"
publish = false

[dependencies]
sha256 = { version = "*", default-features = false }
uuid = { version = "*", features = ["v4"] }
nalgebra = "*"

[dev-dependencies]
bincode = "1"
rand = "*"
