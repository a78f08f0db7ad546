[package]
name = "bugbot"
version = "0.1.0"
edition = "2021"
publish = false

[dependencies]
anyhow = "*"
clap = { version = "*", features = ["derive"] }
dotenv = "*"
feed-rs = "*"
reqwest = { version = "*", default-features = false, features = ["rustls-tls"] }
serde_json = "*"
tokio = { version = "*", features = ["macros", "rt-multi-thread", "time"] }
tracing = "*"
tracing-subscriber = "*"
twitter-v2 = "*"
