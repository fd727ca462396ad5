[package]
name = "ace"
version = "0.1.0"
edition = "2021"
publish = false

[dependencies]
anyhow = "*"
clap = "*"
cli-clipboard = "*"
directories = "*"
indicatif = "*"
json5 = "*"
notifica = "*"
once_cell = "*"
pinyin = "*"
pinyin-parser = "*"
rand = "*"
regex = "*"
reqwest = { version = "*", default-features = false, features = ["rustls-tls", "json"] }
rusqlite = { version = "*", features = ["bundled"] }
scraper = "*"
serde = { version = "*", features = ["derive"] }
serde_json = "*"
tokio = { version = "*", features = ["macros", "rt-multi-thread"] }
toml = "*"
uuid = { version = "*", features = ["v4"] }
