[package]
name = "tailview"
version = "0.1.0"
edition = "2021"
publish = false

[dependencies]
anyhow = "*"
async-stream = "*"
axum = "*"
base64 = "*"
clap = { version = "*", features = ["derive"] }
dashmap = "*"
dirs = "*"
notify = "*"
opener = "*"
p256 = { version = "=0.13.2", features = ["ecdsa", "pem", "pkcs8"] }
rand_core = { version = "=0.6.4", features = ["getrandom"] }
reqwest = { version = "*", default-features = false, features = ["json", "rustls-tls"] }
serde = { version = "*", features = ["derive"] }
serde_json = "=1.0.151"
tokio = { version = "*", features = ["full"] }
tokio-stream = "*"
tower-http = { version = "*", features = ["cors"] }
web-push = { version = "*", default-features = false, features = ["hyper-client"] }
