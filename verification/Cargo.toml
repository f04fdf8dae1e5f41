[package]
name = "tribalwars"
version = "0.1.0"
edition = "2021"
publish = false

[dependencies]
urlencoding = "=2.1.3"
regex = "=1.13.1"
serde = { version = "=1.0.229", features = ["derive"] }
csv = "=1.4.0"
tokio = { version = "=1.54.1", features = ["macros", "rt-multi-thread", "signal", "sync", "time"] }
serenity = { version = "=0.10.10", features = ["collector", "unstable_discord_api"] }
reqwest = { version = "=0.11.27", default-features = false, features = ["rustls-tls"] }
headless_chrome = "=0.9.0"
dotenv = "=0.15.0"
tracing = "=0.1.44"
tracing-subscriber = "=0.2.25"
