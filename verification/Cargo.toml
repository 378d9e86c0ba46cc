[package]
name = "isochrone"
version = "0.1.0"
edition = "2021"
publish = false

[dependencies]
geo = "0.26"
serde = { version = "1", features = ["derive"] }
serde_json = "1"
futures = "0.3"
tokio = { version = "1", features = ["macros", "rt-multi-thread"] }
reqwest = { version = "0.11", default-features = false, features = ["json", "rustls-tls"] }
mongodb = "2"
rocket = { version = "0.5", features = ["json"] }
rocket_okapi = { version = "0.8", features = ["swagger"] }
