[package]
name = "ckourse"
version = "0.1.0"
edition = "2021"
publish = false

[dependencies]
aes = "=0.9.4"
async-trait = "=0.1.92"
cbc = { version = "=0.2.1", features = ["alloc"] }
data-encoding = "=2.11.1"
http = "=1.5.0"
keyring = "=3.6.3"
md5 = "=0.8.1"
percent-encoding = "=2.3.2"
pkcs8 = { version = "=0.11.0", features = ["encryption", "std"] }
quick-xml = "=0.42.0"
reqwest = { version = "=0.12.28", default-features = false, features = ["json", "rustls-tls"] }
russh = { version = "=0.65.0", default-features = false, features = ["ring", "rsa"] }
russh-sftp = "=3.0.1"
rusty-s3 = "=0.10.2"
serde = { version = "=1.0.229", features = ["derive"] }
serde_json = "=1.0.154"
tokio = { version = "=1.54.1", features = ["sync", "time", "io-util", "rt"] }
url = "=2.5.8"
uuid = { version = "=1.29.0", features = ["v4"] }
