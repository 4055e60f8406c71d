[package]
name = "stt_rs"
version = "0.1.0"
edition = "2021"
publish = false

[dependencies]
anyhow = "*"
candle-core = "0.9"
candle-nn = "0.9"
clap = { version = "*", features = ["derive"] }
kaudio = "*"
moshi = "0.6"
sentencepiece = "*"
serde = { version = "*", features = ["derive"] }
serde_json = "*"
