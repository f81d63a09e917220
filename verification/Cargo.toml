[package]
name = "wgroutes"
version = "0.1.0"
edition = "2021"
publish = false

[dependencies]
futures = "0.3"
har = "0.8"
hickory-resolver = "0.25"
ipnetwork = "0.21"
rayon = "1"
tokio = { version = "1", features = ["rt", "rt-multi-thread"] }
