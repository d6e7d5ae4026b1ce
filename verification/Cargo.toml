[package]
name = "kernelino"
version = "0.1.0"
edition = "2021"
publish = false

[dependencies]
byteordered = "*"
crossterm = "*"
lazy_static = "1"
reqwest = { version = "*", default-features = false }
serde_json = "1"
tokio = { version = "1", features = ["macros", "rt-multi-thread"] }
