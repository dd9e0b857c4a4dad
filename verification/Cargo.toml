[package]
name = "loli"
version = "0.1.0"
edition = "2021"
publish = false

[dependencies]
itertools = "=0.15.0"
serde = { version = "=1.0.229", features = ["derive"] }
serde_derive = "=1.0.229"
serde_json = "=1.0.154"
thiserror = "=2.0.21"
anyhow = "=1.0.104"
directories = "=6.0.0"

[dev-dependencies]
regex = "1"
