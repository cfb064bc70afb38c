[package]
name = "title_extractor"
version = "0.1.0"
edition = "2021"
publish = false

[dependencies]
boyer-moore-magiclen = "0.2"
serde_json = "1"
async-std = { version = "1", features = ["attributes", "unstable"] }
futures = "0.3"
