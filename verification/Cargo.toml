[package]
name = "balancer"
version = "0.1.0"
edition = "2021"
publish = false

[dependencies]
rand = "0.8"
tokio = { version = "1", features = ["rt-multi-thread", "macros", "net", "io-util", "time", "sync"] }
serde = { version = "1", features = ["derive"] }
config = { version = "0.14", default-features = false, features = ["toml"] }
notify = "6"
tracing = "0.1"
tracing-subscriber = { version = "0.3", features = ["env-filter", "fmt"] }
tracing-error = "0.2"
color-eyre = "0.6"
