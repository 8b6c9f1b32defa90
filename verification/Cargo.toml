[package]
name = "uniswap_routing"
version = "0.1.0"
edition = "2021"
publish = false

[dependencies]
num-bigint = "=0.4.8"
bigdecimal = { version = "=0.3.1", features = ["serde"] }
tokio = { version = "1", features = ["rt-multi-thread", "macros", "time"] }
reqwest = { version = "=0.11.27", default-features = false, features = ["json", "rustls-tls"] }
serde = { version = "1", features = ["derive"] }
graphql_client = "=0.13.0"
axum = "=0.6.20"
async-graphql = "=5.0.10"
async-graphql-axum = "=5.0.10"
parking_lot = "0.12"
anyhow = "1"
thiserror = "1"
tracing = "0.1"
