[package]
name = "obsidian_cli"
version = "0.1.0"
edition = "2021"
publish = false

[dependencies]
chrono = "=0.4.45"
chrono-tz = "=0.10.4"
clap = { version = "=4.6.7", features = ["derive"] }
percent-encoding = "=2.3.2"
quick-xml = "0.38"
reqwest = { version = "=0.12.28", default-features = false, features = ["rustls-tls"] }
serde = { version = "1", features = ["derive"] }
serde_json = "1"
serde_yaml = "=0.9.34"
thiserror = "=2.0.21"
tokio = { version = "=1.54.1", features = ["macros", "rt-multi-thread"] }
url = "=2.5.8"

[dev-dependencies]
chrono = "=0.4.45"
chrono-tz = "=0.10.4"
