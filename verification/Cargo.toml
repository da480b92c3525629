[package]
name = "futhark-f2"
version = "0.1.0"
edition = "2021"
publish = false

[dependencies]
zip = { version = "2", default-features = false, features = ["deflate"] }
quick-xml = "0.38"
sha2 = "0.10"
rbook = "0.7.10"
serde = { version = "1", features = ["derive"] }
serde_json = "1"
thiserror = "2"
