[package]
name = "rust_crawler"
version = "0.1.0"
edition = "2021"
publish = false

[dependencies]
memmap = "0.7"
ndarray = "*"
prettytable-rs = "*"
regex = "1"
reqwest = "*"
robotstxt = "*"
rust-stemmers = "*"
tokio = { version = "1", features = ["macros", "rt-multi-thread"] }
url = "2"
