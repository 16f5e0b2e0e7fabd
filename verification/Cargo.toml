[package]
name = "skinartplus"
version = "0.1.0"
edition = "2021"
publish = false

[dependencies]
aes = "0.8"
aes-gcm = "0.10"
sha1 = "0.10"
sha2 = "0.10"
rsa = "0.9"
rand = "0.8"
flate2 = "1"
regex = "1"
base64 = "0.22"
urlencoding = "2"
serde = { version = "1", features = ["derive"] }
serde_json = "1"
qrcode = { version = "0.14", default-features = false, features = ["svg"] }
image = { version = "0.25", default-features = false, features = ["png"] }
machine-uid = "0.5"
tokio = { version = "1", features = ["net", "io-util", "time", "macros", "rt-multi-thread", "sync", "process"] }
reqwest = { version = "0.12", default-features = false, features = ["json", "rustls-tls", "multipart"] }
