[package]
name = "crap_cache"
version = "0.1.0"
edition = "2021"
publish = false

[dependencies]
anyhow = "1"
async-trait = "0.1"
http-body-util = "0.1"
hyper = { version = "1", features = ["client", "http1", "server"] }
hyper-util = { version = "0.1", features = ["tokio"] }
lru = "0.12"
mobc = "0.8"
phf = { version = "0.11", features = ["macros"] }
tokio = { version = "1", features = ["macros", "net", "rt-multi-thread"] }
