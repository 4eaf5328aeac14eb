[package]
name = "pq_chat"
version = "0.1.0"
edition = "2021"
publish = false

[dependencies]
aes-gcm = "=0.10.3"
hkdf = "=0.12.4"
sha2 = "=0.10.9"
rand = "=0.8.8"
rand_core = "=0.6.4"
ring = "=0.17.14"
hex = "=0.4.3"
serde = { version = "=1.0.229", features = ["derive"] }
bincode = "=1.3.3"
bytes = "=1.12.1"
uuid = { version = "=1.29.0", features = ["v4"] }
chrono = "=0.4.45"
zeroize = "=1.9.1"
bcrypt = "=0.19.3"
bip39 = "=2.2.2"
safe_pqc_kyber = { version = "=0.6.3", features = ["kyber1024"] }
pqc_kyber = { version = "=0.7.1", features = ["kyber1024"] }
pqc_dilithium = "=0.2.0"
tokio = { version = "=1.54.1", features = ["sync"] }
once_cell = "=1.21.4"
lazy_static = "=1.5.1"
