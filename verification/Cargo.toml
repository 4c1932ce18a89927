[package]
name = "loader"
version = "0.1.0"
edition = "2021"
publish = false

[dependencies]
flate2 = "*"
futures = "*"
reqwest = { version = "*", default-features = false }
tokio = { version = "*", features = ["macros", "rt-multi-thread"] }
