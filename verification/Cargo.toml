[package]
name = "rip_field"
version = "0.1.0"
edition = "2021"
publish = false

[dependencies]
chrono = "0.4"
flate2 = "1"
indicatif = "0.17"
rand = "0.8"
rayon = "1"

[dev-dependencies]
csv = "1"
