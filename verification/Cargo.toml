[package]
name = "ghostsnap"
version = "0.1.0"
edition = "2021"
publish = false

[dependencies]
anyhow = "=1.0.104"
argon2 = "=0.5.3"
async-trait = "=0.1.92"
aws-config = "=1.12.0"
aws-sdk-s3 = "=1.152.0"
aws-types = "=1.6.0"
base64 = "=0.22.1"
blake3 = "=1.8.7"
bytes = "=1.12.1"
chacha20poly1305 = "=0.10.1"
chrono = { version = "=0.4.45", features = ["serde"] }
clap = { version = "=4.6.7", features = ["derive", "env"] }
fastcdc = "=3.2.1"
flate2 = "=1.1.10"
hex = "=0.4.3"
hostname = "=0.4.2"
indicatif = "=0.17.11"
md5 = "=0.7.0"
rand = "=0.8.8"
rpassword = "=7.5.4"
serde = { version = "=1.0.229", features = ["derive"] }
serde_json = "=1.0.154"
tokio = { version = "=1.54.1", features = ["full"] }
tracing = "=0.1.44"
tracing-subscriber = { version = "=0.3.23", features = ["env-filter"] }
uuid = { version = "=1.29.0", features = ["v4"] }
walkdir = "=2.5.0"
