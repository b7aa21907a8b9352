[package]
name = "serde_qs"
version = "0.1.0"
edition = "2021"
publish = false

[dependencies]
itoa = "=1.0.18"
percent-encoding = "=2.3.2"
ryu = "=1.0.23"
serde = "=1.0.229"
actix-web = { version = "4", default-features = false }
futures = "0.3"
