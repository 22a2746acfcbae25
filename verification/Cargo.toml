[package]
name = "hfq_rs"
version = "0.1.0"
edition = "2021"
publish = false

[dependencies]
toml = "=0.8.23"
polars = { version = "=0.40.0", default-features = false, features = ["csv", "fmt"] }
chrono = "=0.4.45"
indicatif = "=0.17.11"
regex-syntax = "=0.8.11"

[dev-dependencies]
regex = "=1.13.1"
