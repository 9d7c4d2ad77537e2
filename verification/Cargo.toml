[package]
name = "rendezvous_registry"
version = "0.1.0"
edition = "2021"
publish = false

[dependencies]
axum = "0.7"
chrono = "0.4"
dotenv = "0.15"
futures = "0.3"
hex = "0.4"
libp2p = { version = "*", features = ["ed25519", "identify", "macros", "noise", "ping", "rendezvous", "tcp", "tokio", "yamux"] }
serde = { version = "1", features = ["derive"] }
tokio = { version = "1", features = ["full"] }
tower-http = { version = "*", features = ["fs"] }
tracing = "0.1"
tracing-subscriber = { version = "0.3", features = ["env-filter"] }
