[package]
name = "tailscale_core"
version = "0.1.0"
edition = "2021"
publish = false

[dependencies]
anyhow = "1"
blake2 = "0.10"
chacha20poly1305 = "0.10"
crypto_box = "0.9"
embedded-graphics = "0.8"
esp-idf-hal = "*"
esp-idf-svc = "*"
getrandom = "0.2"
mipidsi = "*"
serde = { version = "1", features = ["derive"] }
serde_json = "1"
snow = { version = "*", features = ["risky-raw-split"] }
x25519-dalek = { version = "2", features = ["static_secrets"] }
