[package]
name = "cargo-vet"
version = "0.1.0"
edition = "2021"
publish = false

[dependencies]
cargo_metadata = "0.14"
clap = { version = "3.2", features = ["derive"] }
clap-cargo = "0.8"
eyre = "0.6"
home = "0.5"
log = "0.4"
reqwest = { version = "0.11", default-features = false, features = ["blocking", "rustls-tls"] }
serde = { version = "1", features = ["derive"] }
simplelog = "0.12"
toml = "0.5"
