[package]
name = "mdbook_translator"
version = "0.1.0"
edition = "2021"
publish = false

[dependencies]
serde_json = "1"
sha2 = "0.10"
semver = "1"
anyhow = "1"
clap = "4"
mdbook = { version = "0.4", default-features = false }
reqwest = { version = "0.12", default-features = false, features = ["blocking", "json", "rustls-tls"] }
