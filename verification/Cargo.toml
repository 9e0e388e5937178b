[package]
name = "analyzed"
version = "0.1.0"
edition = "2021"
publish = false

[dependencies]
anyhow = "=1.0.104"
clap = { version = "=4.6.7", features = ["derive"] }
crossbeam-channel = "=0.5.17"
flate2 = "=1.1.10"
lsp-server = "=0.10.0"
lsp-types = "=0.97.0"
rustc-hash = "=2.1.3"
serde = { version = "=1.0.229", features = ["derive"] }
serde_json = "=1.0.154"
tar = "=0.4.46"
time = "=0.3.55"
xshell = "=0.2.7"
zip = { version = "=9.2.2", default-features = false, features = ["deflate"] }
