[package]
name = "frodo_pir"
version = "0.1.0"
edition = "2021"
publish = false

[dependencies]
base64 = "0.13"
bincode = "1.3"
rand_chacha = { version = "0.3", default-features = false, features = ["std"] }
rand_core = { version = "0.6", features = ["std", "getrandom"] }
rayon = "1"
serde = { version = "1", features = ["derive"] }
serde_json = "1"
