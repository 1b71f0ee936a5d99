[package]
name = "claimlands"
version = "0.1.0"
edition = "2021"
publish = false

[dependencies]
libm = "*"
serde = { version = "*", features = ["derive"] }
thiserror = "*"
