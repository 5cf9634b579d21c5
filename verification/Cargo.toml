[package]
name = "ralavest"
version = "0.1.0"
edition = "2021"
publish = false

[dependencies]
percent-encoding = "2"
regex = "1"
serde = "1"
serde_json = "1"
tokio = { version = "1", features = ["net", "rt-multi-thread", "io-util"] }
url = "2"

[dev-dependencies]
nom = "8"
