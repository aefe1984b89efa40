[package]
name = "meshcore"
version = "0.1.0"
edition = "2021"
publish = false

[dependencies]
sha2 = "=0.10.9"
hex = "=0.4.3"
rand = "=0.8.8"
serde = { version = "=1.0.229", features = ["derive"] }
serde_json = "=1.0.154"
clap = { version = "=4.6.7", features = ["derive", "env"] }
qrcode = "=0.14.1"
local-ip-address = "=0.6.13"
sysinfo = "*"
anyhow = "1"
