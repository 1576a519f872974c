[package]
name = "nextup"
version = "0.1.0"
edition = "2021"
publish = false

[dependencies]
anyhow = "1"
bincode = "2"
clap = { version = "4", features = ["derive"] }
colog = "1"
dirs = "5"
keyring = "3.6"
log = "0.4"
native-tls = "0.2"
postgres-native-tls = "0.5"
cursive = { version = "0.21", default-features = false, features = ["crossterm-backend"] }
serde = { version = "1", features = ["derive"] }
thiserror = "1"
tokio = { version = "1", features = ["full"] }
tokio-postgres = "0.7"
toml = "0.8"
