[package]
name = "collector"
version = "0.1.0"
edition = "2021"
rust-version = "1.95"
publish = false

[dependencies]
anyhow = "=1.0.104"
dotenvy = "=0.15.7"
log = "=0.4.35"
tokio = { version = "=1.54.1", features = ["macros", "rt-multi-thread", "time"] }
serde_yaml = "0.9"
nautilus-binance = { version = "=0.57.0", default-features = false }
nautilus-common = { version = "=0.57.0", default-features = false }
nautilus-core = { version = "=0.57.0", default-features = false }
nautilus-live = { version = "=0.57.0", default-features = false, features = ["node"] }
nautilus-model = { version = "=0.57.0", default-features = false }
nautilus-system = { version = "=0.57.0", default-features = false }
