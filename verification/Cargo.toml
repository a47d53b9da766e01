[package]
name = "updater-sdk"
version = "0.1.0"
edition = "2021"
publish = false

[dependencies]
anyhow = "=1.0.104"
clap = { version = "=4.6.7", features = ["derive"] }
embedded-hal = "=1.0.0"
embedded-io = { version = "=0.7.1", features = ["std"] }
gpio-cdev = "=0.6.0"
i2cdev = "=0.6.2"
nix = { version = "=0.31.3", features = ["term"] }
serde = { version = "=1.0.229", features = ["derive"] }
spidev = "=0.7.1"
toml = "=1.1.8"
