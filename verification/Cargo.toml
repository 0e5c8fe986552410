[package]
name = "dhaar-torrent"
version = "0.1.0"
edition = "2021"
publish = false

[dependencies]
sha1 = "=0.10.7"
rand = "=0.9.5"
chrono = { version = "0.4", default-features = false }
tokio = { version = "=1.54.1", features = ["full"] }
tokio-util = { version = "=0.7.20", features = ["codec"] }
futures = "=0.3.34"
reqwest = { version = "=0.12.28", default-features = false }
tracing = "=0.1.44"
tracing-subscriber = { version = "=0.3.23", features = ["env-filter", "fmt"] }
clap = { version = "=4.6.7", features = ["derive"] }
anyhow = "=1.0.104"
thiserror = "=2.0.21"
async-trait = "=0.1.92"
serde = { version = "=1.0.229", features = ["derive"] }
toml = "=0.8.23"
