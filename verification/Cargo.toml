[package]
name = "replitdb"
version = "0.1.0"
edition = "2021"
publish = false

[dependencies]
reqwest = { version = "=0.13.5", default-features = false, features = ["blocking", "query"] }

[dev-dependencies]
urlencoding = "=2.1.3"
