[package]
name = "burn_sct"
version = "0.1.0"
edition = "2021"
publish = false

[dependencies]
burn = { version = "=0.22.1", default-features = false, features = ["ndarray"] }
futures-lite = "=2.6.1"
serde = { version = "=1.0.229", features = ["derive"] }

[dev-dependencies]
burn-ndarray = { version = "=0.22.1", default-features = false }
