[package]
name = "ebay_scraper"
version = "0.1.0"
edition = "2021"
publish = false

[dependencies]
scraper = "=0.29.0"
ego-tree = "=0.11.1"
rand = "=0.8.8"
serde = { version = "=1.0.229", features = ["derive"] }
serde_json = "=1.0.154"
rayon = "=1.12.0"
reqwest = { version = "=0.12.28", default-features = false, features = ["blocking", "rustls-tls"] }
headless_chrome = { version = "=1.0.22", default-features = false, features = ["offline"] }
