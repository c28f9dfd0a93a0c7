[package]
name = "ruma_lean"
version = "0.1.0"
edition = "2021"
publish = false

[dependencies]
hashbrown = "*"
sha2 = "*"
hex = "*"
base64 = "*"
ed25519-consensus = "*"
serde = { version = "1", features = ["derive"] }
serde_json = { version = "1", features = ["raw_value"] }
ruma-common = "*"
ruma-events = "*"
rayon = "*"
reqwest = { version = "0.12", default-features = false, features = ["blocking", "json", "rustls-tls"] }
