[package]
name = "nqvpn"
version = "0.1.0"
edition = "2021"
publish = false

[dependencies]
anyhow = "1"
argon2 = "0.5"
axum = { version = "0.8", features = ["ws"] }
axum-server = { version = "0.7", features = ["tls-rustls"] }
base64 = "0.22"
clap = { version = "4", features = ["derive"] }
ed25519-dalek = { version = "2", features = ["rand_core"] }
futures-util = "0.3"
getifaddrs = "*"
ipnet = "2"
libc = "0.2"
quinn = "0.11"
rand = "0.8"
route_manager = { version = "*", features = ["async"] }
rusqlite = { version = "*", features = ["bundled"] }
rustls-pemfile = "2"
serde = { version = "1", features = ["derive"] }
serde_json = "1"
tokio = { version = "1", features = ["full"] }
toml = "0.8"
tracing = "0.1"
tracing-subscriber = { version = "0.3", features = ["env-filter"] }
tun-rs = { version = "2", features = ["async"] }
uuid = { version = "1", features = ["v4"] }
