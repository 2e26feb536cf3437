[package]
name = "kommitted"
version = "0.1.0"
edition = "2021"
publish = false

[dependencies]
axum = "0.6"
chrono = "0.4"
ctrlc = "3"
konsumer_offsets = "*"
log = "0.4"
rdkafka = "*"
tokio = { version = "1", features = ["full"] }
tokio-util = "0.7"
