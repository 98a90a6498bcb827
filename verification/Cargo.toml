[package]
name = "vpn_rust"
version = "0.1.0"
edition = "2021"
publish = false

[dependencies]
anyhow = "1"
tokio = { version = "1", features = ["full"] }
tokio-rustls = "0.24"
rustls-pemfile = "1"
webpki-roots = "0.22"
tun = "0.6"
