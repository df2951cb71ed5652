[package]
name = "onchainos"
version = "0.1.0"
edition = "2021"
publish = false

[dependencies]
aes-gcm = "0.10"
scrypt = { version = "0.11", default-features = false }
serde_json = "1"
sha2 = "0.10"
hex = "0.4"
rand = "0.8"
zeroize = "1"
anyhow = "1"
clap = { version = "4", features = ["derive"] }
keyring = "3"
libc = "0.2"
reqwest = { version = "0.12", default-features = false, features = ["json", "rustls-tls"] }
tokio = { version = "1", features = ["rt-multi-thread", "macros"] }
