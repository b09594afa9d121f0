[package]
name = "anna"
version = "0.1.0"
edition = "2021"
publish = false

[dependencies]
textwrap = "=0.16.4"
irc = { version = "=1.1.0", default-features = false, features = ["ctcp", "channel-lists"] }
tokio = { version = "=1.53.2", features = ["rt-multi-thread", "macros"] }
anyhow = "=1.0.104"
chrono = "=0.4.45"
serde = { version = "=1.0.229", features = ["derive"] }
serde_json = "=1.0.151"
reqwest = { version = "=0.12.28", default-features = false, features = ["json", "rustls-tls"] }
async-openai = { version = "=0.42.1", features = ["chat-completion", "audio", "image"] }
futures = "=0.3.34"
schemars = "=1.2.2"
