[package]
name = "ruproxy"
version = "0.1.0"
edition = "2021"
publish = false

[dependencies]
aes-gcm = "=0.10.3"
base64 = "=0.22.1"
blake3 = "=1.8.7"
boringtun = { version = "=0.7.1", default-features = false }
chacha20poly1305 = "=0.10.1"
crc32fast = "=1.5.4"
h3 = "=0.0.8"
h3-quinn = "=0.0.10"
hex = "=0.4.3"
hmac = "=0.12.1"
http-body-util = "=0.1.5"
humantime-serde = "1"
hyper = { version = "=1.12.0", features = ["http1", "server", "client"] }
hyper-util = { version = "=0.1.21", features = ["tokio", "client", "client-legacy", "http1", "server"] }
ip_network = "=0.4.1"
md-5 = "=0.10.6"
quinn = { version = "=0.11.12", default-features = false, features = ["runtime-tokio", "rustls-ring"] }
quinn-proto = { version = "=0.11.19", default-features = false }
rand = "=0.8.8"
rcgen = { version = "=0.13.2", default-features = false, features = ["ring", "pem", "crypto"] }
rustls = { version = "=0.23.46", default-features = false, features = ["ring", "std", "tls12"] }
serde = { version = "=1.0.229", features = ["derive"] }
sha2 = "=0.10.9"
sha3 = "=0.10.9"
smoltcp = "=0.11.0"
tokio = { version = "=1.54.1", features = ["full"] }
tokio-rustls = { version = "=0.26.6", default-features = false, features = ["ring", "tls12"] }
toml = "=0.8.23"
uuid = { version = "=1.29.0", features = ["serde"] }
x25519-dalek = { version = "=2.0.1", features = ["static_secrets"] }
