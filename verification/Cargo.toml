[package]
name = "copper"
version = "0.1.0"
edition = "2021"
publish = false

[dependencies]
bincode = "=2.0.1"
embedded-hal = "=1.0.0"
linux-embedded-hal = "=0.5.0"
i2cdev = "=0.6.2"
uom = { version = "=0.38.0", features = ["rational"] }
serde = "=1.0.229"
