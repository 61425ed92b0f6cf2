[package]
name = "deadeye_strat_backtest"
version = "0.1.0"
edition = "2021"
publish = false

[dependencies]
deadeye-sdk = "*"
anyhow = "1"
tokio = { version = "1", features = ["macros", "rt-multi-thread"] }
tracing = "0.1"
tracing-subscriber = { version = "0.3", features = ["env-filter", "fmt"] }
