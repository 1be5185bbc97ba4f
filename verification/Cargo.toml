[package]
name = "ratatosk_transport"
version = "0.1.0"
edition = "2021"
publish = false

[lints.rust]
unexpected_cfgs = { level = "warn", check-cfg = ["cfg(onion_arti)", "cfg(bluez)"] }

[dependencies]
data-encoding = "=2.11.1"
serde_json = "=1.0.154"
rand_core = { version = "=0.6.4", features = ["getrandom"] }
tokio = { version = "=1.54.1", features = ["rt", "rt-multi-thread", "net", "io-util", "sync", "time", "macros"] }
tokio-util = { version = "=0.7.20", features = ["compat"] }
futures = "=0.3.34"
tracing = "=0.1.44"
rustls = { version = "=0.23.46", default-features = false, features = ["std", "ring", "tls12"] }
tokio-rustls = { version = "=0.26.6", default-features = false, features = ["ring", "tls12"] }
webpki-roots = "=1.0.10"
tokio-tungstenite = { version = "=0.30.0", default-features = false, features = ["handshake"] }
async-imap = { version = "=0.12.0", default-features = false, features = ["runtime-tokio"] }
async-smtp = { version = "=0.10.2", default-features = false, features = ["runtime-tokio"] }
mdns-sd = "=0.21.7"
bluer = { version = "=0.17.4", default-features = false, features = ["bluetoothd", "l2cap"] }
