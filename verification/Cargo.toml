[package]
name = "embedded-hal-fuzz"
version = "3.0.0"
edition = "2021"
publish = false

[dependencies]
arbitrary = { version = "1", features = ["derive"] }
embedded-hal = "1.0.0"
embedded-hal-nb = "1.0.0"
nb = "1"
