[package]
name = "gitt"
version = "0.1.0"
edition = "2021"
publish = false

[dependencies]
atty = "=0.2.14"
chrono = "=0.4.45"
clap = { version = "=4.6.7", features = ["derive"] }
console = "=0.16.6"
dialoguer = { version = "=0.12.0", features = ["editor"] }
env_logger = "=0.11.11"
handlebars = "=6.4.4"
log = "=0.4.34"
semver = "=1.0.28"
serde = { version = "=1.0.229", features = ["derive"] }
thiserror = "=2.0.21"
toml = "=1.1.7"
