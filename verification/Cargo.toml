[package]
name = "tsg_metadata"
version = "0.1.0"
edition = "2021"
publish = false

[dependencies]
bzip2 = "=0.6.1"
flate2 = "=1.1.10"
zip = { version = "*", default-features = false, features = ["deflate"] }
tar = "=0.4.46"
roxmltree = "=0.21.1"
memmap = "=0.7.0"
serde_json = "=1.0.151"
clap = { version = "=4.6.7", features = ["derive"] }
