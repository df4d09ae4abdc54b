[package]
name = "lightbringer"
version = "0.1.0"
edition = "2021"
publish = false

[dependencies]
anyhow = "1"
arrayvec = "0.7"
base64 = "=0.22.1"
bincode = "1.3"
bs58 = "=0.5.1"
bytes = "1"
circular-buffer = "1"
ctrlc = "3"
fjall = "3"
futures = "0.3"
kanal = "0.1"
log = "0.4"
lru = "*"
quinn-proto = "=0.11.19"
rand = { version = "=0.9.5", features = ["small_rng"] }
rustls = { version = "=0.23.46", default-features = false, features = ["ring", "std", "tls12"] }
scc = "=3.8.8"
serde = { version = "1", features = ["derive"] }
serde_json = "1"
simple_logger = "5"
socket2 = "0.4"
solana-packet = "2"
solana-sdk = { version = "=2.3.1", default-features = false, features = ["full"] }
solana-sha256-hasher = "2"
thiserror = "2"
uluru = "=3.1.0"
