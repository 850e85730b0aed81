[package]
name = "liquidation_bot"
version = "0.1.0"
edition = "2021"
publish = false

[dependencies]
serde_json = "=1.0.151"
serde = { version = "=1.0.229", features = ["derive"] }
web3 = { version = "=0.19.0", default-features = false, features = ["ws-tokio", "http", "signing"] }
tokio = { version = "=1.53.2", features = ["full"] }
tokio-tungstenite = "=0.30.0"
futures-util = "=0.3.34"
url = "=2.5.8"
secp256k1 = "=0.27.0"
