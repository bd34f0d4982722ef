[package]
name = "aurascan"
version = "0.1.0"
edition = "2021"
publish = false

[dependencies]
chrono = "0.4"
keyvalues-serde = "*"
serde = { version = "1", features = ["derive"] }
eyre = "0.6"
log = "0.4"
nalgebra = "*"
lapjv = "*"
