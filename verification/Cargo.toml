[package]
name = "stable_storage"
version = "0.1.0"
edition = "2021"
publish = false

[dependencies]
ic-stable-structures = "0.6"
candid = "*"
ic-cdk = "*"
serde = { version = "1", features = ["derive"] }
thiserror = "*"
