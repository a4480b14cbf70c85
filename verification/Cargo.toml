[package]
name = "infonode"
version = "0.1.0"
edition = "2021"
publish = false

[dependencies]
bigdecimal = "0.3"
crossbeam-channel = "0.5"
futures = "0.3"
json = "0.12"
log = "0.4"
prost = "0.11"
reqwest = { version = "0.11", default-features = false, features = ["rustls-tls"] }
tokio = { version = "1", features = ["macros", "rt-multi-thread", "sync", "time"] }
tokio-stream = "0.1"
tonic = "0.9"
tungstenite = { version = "0.18", features = ["rustls-tls-webpki-roots"] }
url = "2"
