[package]
name = "ziponline"
version = "0.1.0"
edition = "2021"
publish = false

[dependencies]
bytes = "1"
futures = "0.3"
inflate = "0.4"
reqwest = { version = "0.12", features = ["stream"] }
thiserror = "2"
tokio = { version = "1", features = ["macros", "rt-multi-thread"] }
